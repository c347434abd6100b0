//! Reading rows: by row id, or by scanning for rows that meet constraints.

use vstd::prelude::*;
use crate::bytes;
use crate::constraint;
use crate::constraint::RtreeConstraint;
use crate::coord::Coord;
use crate::node;
use crate::node::{CellView, NodeView, RtreeCell, RtreeNode, RTREE_MAX_COORDS};
use crate::store::{AuxRow, AuxRowView, NodeRow, NodeRowView, NumberRow, ShadowStore, Stop, StoreView};
use crate::table;
use crate::table::{RtreeTable, TableView};
use crate::tree_read;
use crate::value;
use crate::value::{Arg, ArgView, ResultCode, Value, ValueView};

verus! {

/// Most levels that a query goes down: a tree has fewer levels than there are node numbers.
pub const RTREE_QUERY_LEVELS: u64 = 0x7fff_ffff_ffff_ffff;

/// A node that a query has still to visit, and how many levels it may go down from there.
#[derive(Clone, Copy, Debug, PartialEq, Eq, Structural)]
pub struct Visit {
    pub nodeno: i64,
    pub levels: u64,
}

/// A position in the result of a query.
#[derive(Clone, Debug)]
pub struct RtreeCursor {
    pub at_eof: bool,
    pub rowid: i64,
    pub current_coords: [Coord; 10],
    pub constraints: Vec<RtreeConstraint>,
    /// The nodes still to visit, the next one last.
    pub todo: Vec<Visit>,
    /// The rows of the leaf visited last that are still to come, the next one last.
    pub ready: Vec<RtreeCell>,
    pub n_dim2: usize,
    pub n_bytes_per_cell: usize,
    pub node_size: usize,
    pub table_name: String,
    pub aux_columns: Vec<String>,
    pub aux_values: Vec<Value>,
}

/// The model of a cursor.
#[verifier::ext_equal]
pub struct CursorView {
    pub at_eof: bool,
    pub rowid: i64,
    pub current_coords: Seq<Coord>,
    pub constraints: Seq<RtreeConstraint>,
    pub todo: Seq<Visit>,
    pub ready: Seq<CellView>,
    pub n_dim2: usize,
    pub n_bytes_per_cell: usize,
    pub node_size: usize,
    pub table_name: Seq<char>,
    pub aux_columns: Seq<Seq<char>>,
    pub aux_values: Seq<ValueView>,
}

impl View for RtreeCursor {
    type V = CursorView;

    open spec fn view(&self) -> CursorView {
        CursorView {
            at_eof: self.at_eof,
            rowid: self.rowid,
            current_coords: self.current_coords@,
            constraints: self.constraints@,
            todo: self.todo@,
            ready: node::cell_views(self.ready@),
            n_dim2: self.n_dim2,
            n_bytes_per_cell: self.n_bytes_per_cell,
            node_size: self.node_size,
            table_name: self.table_name@,
            aux_columns: table::string_views(self.aux_columns@),
            aux_values: value::value_views(self.aux_values@),
        }
    }
}

/// What a column of the current row holds.
#[derive(Clone, Debug)]
pub enum ColumnValue {
    /// A coordinate, to be widened to an SQL number.
    Coordinate(Coord),
    Plain(Value),
}

/// The model of what a column holds.
#[verifier::ext_equal]
pub enum ColumnView {
    Coordinate(Coord),
    Plain(ValueView),
}

impl View for ColumnValue {
    type V = ColumnView;

    open spec fn view(&self) -> ColumnView {
        match self {
            ColumnValue::Coordinate(c) => ColumnView::Coordinate(*c),
            ColumnValue::Plain(v) => ColumnView::Plain(v@),
        }
    }
}

/// The constraints that an index string and the arguments of a query encode, from the `k`-th pair
/// on: an operator letter and the digit of a coordinate for each argument. An argument that is not a
/// number, or a character before the digits in place of the digit, gives no constraint.
pub open spec fn constraints_from(
    idx: Seq<u8>,
    args: Seq<ArgView>,
    k: int,
    known: Seq<RtreeConstraint>,
) -> Seq<RtreeConstraint>
    decreases idx.len() - k,
{
    if k < 0 || 2 * k + 1 >= idx.len() {
        known
    } else {
        constraints_from(
            idx,
            args,
            k + 1,
            if k < args.len() && args[k].real is Some && idx[2 * k + 1] >= 0x30 {
                known.push(
                    RtreeConstraint {
                        i_coord: (idx[2 * k + 1] - 0x30) as usize,
                        op: idx[2 * k],
                        value: args[k].real->0,
                    },
                )
            } else {
                known
            },
        )
    }
}

/// The word that an index string for a lookup by row id starts with.
pub open spec fn lookup_word() -> Seq<u8> {
    vstd::utf8::encode_utf8("rowid_lookup"@)
}

/// The index string is one for a lookup by row id.
pub open spec fn is_lookup(idx: Seq<u8>) -> bool {
    lookup_word().len() <= idx.len() && idx.take(lookup_word().len() as int) == lookup_word()
}

/// What stands behind the word for a lookup.
pub open spec fn behind_word(idx: Seq<u8>) -> Seq<u8> {
    idx.skip(lookup_word().len() as int)
}

/// The word for a lookup has twelve bytes, the first of which no operator letter is.
pub proof fn lemma_lookup_word()
    ensures
        lookup_word().len() == 12,
        lookup_word()[0] == 0x72,
        is_lookup(lookup_word()),
        behind_word(lookup_word()) == Seq::<u8>::empty(),
{
    reveal_strlit("rowid_lookup");
    let word = "rowid_lookup"@;
    assert(vstd::utf8::is_ascii_chars(word));
    vstd::utf8::is_ascii_chars_encode_utf8(word);
    assert(lookup_word()[0] == word[0] as u8);
    assert(lookup_word().take(12) =~= lookup_word());
    assert(behind_word(lookup_word()) =~= Seq::empty());
}

/// The rows of a list that meet the constraints, the first one last.
pub open spec fn hits(
    cells: Seq<CellView>,
    constraints: Seq<RtreeConstraint>,
    n_dim2: nat,
) -> Seq<CellView>
    decreases cells.len(),
{
    if cells.len() == 0 {
        Seq::empty()
    } else {
        let rest = hits(cells.drop_first(), constraints, n_dim2);
        if constraint::leaf_matches(constraints, cells[0], n_dim2) {
            rest.push(cells[0])
        } else {
            rest
        }
    }
}

/// The visits to the children of a list that the constraints do not exclude, the first one last.
pub open spec fn visits(
    cells: Seq<CellView>,
    constraints: Seq<RtreeConstraint>,
    n_dim2: nat,
    levels: u64,
) -> Seq<Visit>
    decreases cells.len(),
{
    if cells.len() == 0 {
        Seq::empty()
    } else {
        let rest = visits(cells.drop_first(), constraints, n_dim2, levels);
        if constraint::nonleaf_matches(constraints, cells[0], n_dim2) {
            rest.push(Visit { nodeno: cells[0].rowid, levels })
        } else {
            rest
        }
    }
}

/// More visits than a visit with so many levels to go can lead to.
pub open spec fn weight_of(levels: nat) -> nat
    decreases levels,
{
    if levels == 0 {
        1
    } else {
        1 + 0x1_0000 * weight_of((levels - 1) as nat)
    }
}

/// More visits than a list of visits can lead to.
pub open spec fn weight(todo: Seq<Visit>) -> nat
    decreases todo.len(),
{
    if todo.len() == 0 {
        0
    } else {
        weight(todo.drop_last()) + weight_of(todo.last().levels as nat)
    }
}

proof fn lemma_weight_add(a: Seq<Visit>, b: Seq<Visit>)
    ensures
        weight(a + b) == weight(a) + weight(b),
    decreases b.len(),
{
    if b.len() == 0 {
        assert(a + b =~= a);
    } else {
        lemma_weight_add(a, b.drop_last());
        assert((a + b).drop_last() =~= a + b.drop_last());
        assert((a + b).last() == b.last());
    }
}

proof fn lemma_weight_of_visits(
    cells: Seq<CellView>,
    constraints: Seq<RtreeConstraint>,
    n_dim2: nat,
    levels: u64,
)
    ensures
        weight(visits(cells, constraints, n_dim2, levels)) <= cells.len() * weight_of(
            levels as nat,
        ),
    decreases cells.len(),
{
    let w = weight_of(levels as nat);
    if cells.len() > 0 {
        let less = cells.drop_first();
        lemma_weight_of_visits(less, constraints, n_dim2, levels);
        let rest = visits(less, constraints, n_dim2, levels);
        assert(rest.push(Visit { nodeno: cells[0].rowid, levels }).drop_last() =~= rest);
        assert(cells.len() * w == less.len() * w + w) by (nonlinear_arith)
            requires
                cells.len() == less.len() + 1,
        ;
    } else {
        assert(cells.len() * w == 0) by (nonlinear_arith)
            requires
                cells.len() == 0,
        ;
    }
}

/// Visiting the children of a node instead of the node brings a query closer to its end.
pub proof fn lemma_visit_leads_on(
    todo: Seq<Visit>,
    cells: Seq<CellView>,
    constraints: Seq<RtreeConstraint>,
    n_dim2: nat,
)
    requires
        todo.len() > 0,
        cells.len() < 0x1_0000,
    ensures
        weight(todo.drop_last()) < weight(todo),
        todo.last().levels > 0 ==> weight(
            todo.drop_last() + visits(
                cells,
                constraints,
                n_dim2,
                (todo.last().levels - 1) as u64,
            ),
        ) < weight(todo),
{
    let levels = todo.last().levels;
    assert(weight_of(levels as nat) >= 1);
    if levels > 0 {
        let below = (levels - 1) as u64;
        let more = visits(cells, constraints, n_dim2, below);
        lemma_weight_add(todo.drop_last(), more);
        lemma_weight_of_visits(cells, constraints, n_dim2, below);
        let w = weight_of(below as nat);
        assert(cells.len() * w <= 0x1_0000 * w) by (nonlinear_arith)
            requires
                cells.len() < 0x1_0000,
                w >= 0,
        ;
    }
}

/// The model of a cell that was found, if there was one.
pub open spec fn found_result(r: Result<Option<RtreeCell>, Stop>) -> Result<
    Option<CellView>,
    Stop,
> {
    match r {
        Ok(Some(cell)) => Ok(Some(cell@)),
        Ok(None) => Ok(None),
        Err(stop) => Err(stop),
    }
}

impl CursorView {
    /// The table that the cursor reads.
    pub open spec fn table(self) -> TableView {
        TableView {
            n_dim2: self.n_dim2,
            n_bytes_per_cell: self.n_bytes_per_cell,
            node_size: self.node_size,
            depth: 0,
            row_count: 0,
            node_count: 0,
            table_name: self.table_name,
            aux_columns: self.aux_columns,
        }
    }

    /// The cursor reads a well-formed table.
    pub open spec fn wf(self) -> bool {
        self.table().wf()
    }

    /// Reading a node. A read that fails finds nothing.
    pub open spec fn load_node(self, s: StoreView, nodeno: i64) -> (
        Result<Option<NodeView>, Stop>,
        StoreView,
    ) {
        if !s.connected {
            (Ok(None), s)
        } else {
            match s.fetch_node(nodeno) {
                (Ok(NodeRowView::Blob(data)), s1) => (
                    Ok(Some(self.table().node_from(nodeno, data))),
                    s1,
                ),
                (Ok(_), s1) => (Ok(None), s1),
                (Err(stop), s1) => (Err(stop), s1),
            }
        }
    }

    /// Reading the auxiliary columns of the current row.
    pub open spec fn load_aux(self, s: StoreView) -> (
        Result<ResultCode, Stop>,
        CursorView,
        StoreView,
    ) {
        let cleared = CursorView { aux_values: Seq::empty(), ..self };
        if self.aux_columns.len() == 0 || self.rowid == 0 {
            (Ok(ResultCode::OK), cleared, s)
        } else if !s.connected {
            (Ok(ResultCode::Error), cleared, s)
        } else {
            match s.fetch_aux(self.rowid) {
                (Err(stop), s1) => (Err(stop), cleared, s1),
                (Ok(AuxRowView::Failed), s1) => (Ok(ResultCode::Error), cleared, s1),
                (Ok(AuxRowView::Missing), s1) => (Ok(ResultCode::OK), cleared, s1),
                (Ok(AuxRowView::Values(values)), s1) => (
                    Ok(ResultCode::OK),
                    CursorView { aux_values: value::owned_all(values), ..self },
                    s1,
                ),
            }
        }
    }

    /// Standing on the row of a cell.
    pub open spec fn standing_on(self, cell: CellView) -> CursorView {
        CursorView {
            at_eof: false,
            rowid: cell.rowid,
            current_coords: Seq::new(
                RTREE_MAX_COORDS as nat,
                |k: int|
                    if k < 2 * self.n_dim2 {
                        cell.coords[k]
                    } else {
                        self.current_coords[k]
                    },
            ),
            ..self
        }
    }

    /// Moving to the row of a cell.
    pub open spec fn arrive(self, s: StoreView, cell: CellView) -> (
        Result<ResultCode, Stop>,
        CursorView,
        StoreView,
    ) {
        self.standing_on(cell).load_aux(s)
    }

    /// Going on to the next row: one that is ready, or else one below the nodes still to visit,
    /// from the next one on. A node that cannot be read is passed over. Behind the last row the code
    /// is `missed`.
    #[verifier::opaque]
    pub open spec fn advance(self, s: StoreView, missed: ResultCode) -> (
        Result<ResultCode, Stop>,
        CursorView,
        StoreView,
    )
        decreases weight(self.todo),
    {
        if self.ready.len() > 0 {
            CursorView { ready: self.ready.drop_last(), ..self }.arrive(s, self.ready.last())
        } else if self.todo.len() == 0 {
            (Ok(missed), CursorView { at_eof: true, ..self }, s)
        } else {
            let levels = self.todo.last().levels;
            let c = CursorView { at_eof: true, todo: self.todo.drop_last(), ..self };
            match c.load_node(s, self.todo.last().nodeno) {
                (Err(stop), s1) => (Err(stop), c, s1),
                (Ok(None), s1) => {
                    proof {
                        lemma_visit_leads_on(self.todo, Seq::empty(), Seq::empty(), 0);
                    }
                    c.advance(s1, missed)
                },
                (Ok(Some(n)), s1) => {
                    let cells = c.table().cells(n.data);
                    proof {
                        lemma_visit_leads_on(
                            self.todo,
                            cells,
                            self.constraints,
                            self.n_dim2 as nat,
                        );
                    }
                    match c.table().is_leaf(s1, n) {
                        (Err(Stop::Wait), s2) => (Err(Stop::Wait), c, s2),
                        (Err(Stop::Code(code)), s2) => (Ok(code), c, s2),
                        (Ok(true), s2) => CursorView {
                            ready: hits(cells, self.constraints, self.n_dim2 as nat),
                            ..c
                        }.advance(s2, missed),
                        (Ok(false), s2) => if levels == 0 {
                            (Ok(ResultCode::Corrupt), c, s2)
                        } else {
                            CursorView {
                                todo: c.todo + visits(
                                    cells,
                                    self.constraints,
                                    self.n_dim2 as nat,
                                    (levels - 1) as u64,
                                ),
                                ..c
                            }.advance(s2, missed)
                        },
                    }
                },
            }
        }
    }

    /// The cursor before a query.
    pub open spec fn rewound(self) -> CursorView {
        CursorView {
            at_eof: true,
            rowid: 0,
            constraints: Seq::empty(),
            todo: Seq::empty(),
            ready: Seq::empty(),
            aux_values: Seq::empty(),
            ..self
        }
    }

    /// Finding one row by its row id.
    #[verifier::opaque]
    pub open spec fn find_row(self, s: StoreView, id: i64) -> (
        Result<Option<CellView>, Stop>,
        StoreView,
    ) {
        if !s.connected {
            (Ok(None), s)
        } else {
            match s.fetch_rowid(id) {
                (Err(stop), s1) => (Err(stop), s1),
                (Ok(NumberRow::Number(nodeno)), s1) => match self.load_node(s1, nodeno) {
                    (Err(stop), s2) => (Err(stop), s2),
                    (Ok(None), s2) => (Ok(None), s2),
                    (Ok(Some(n)), s2) => {
                        let cells = self.table().cells(n.data);
                        match table::index_of_rowid(cells, id) {
                            Some(i) => (Ok(Some(cells[i])), s2),
                            None => (Ok(None), s2),
                        }
                    },
                },
                (Ok(_), s1) => (Ok(None), s1),
            }
        }
    }

    /// Ending a lookup: on the row that was found where it meets the constraints, or behind the last
    /// row.
    pub open spec fn settle(self, found: (Result<Option<CellView>, Stop>, StoreView)) -> (
        Result<ResultCode, Stop>,
        CursorView,
        StoreView,
    ) {
        match found {
            (Err(stop), s) => (Err(stop), self, s),
            (Ok(Some(cell)), s) => if constraint::leaf_matches(
                self.constraints,
                cell,
                self.n_dim2 as nat,
            ) {
                self.arrive(s, cell)
            } else {
                (Ok(ResultCode::OK), CursorView { at_eof: true, ..self }, s)
            },
            (Ok(None), s) => (Ok(ResultCode::OK), CursorView { at_eof: true, ..self }, s),
        }
    }

    /// Starting a query. `idx` is the index string. One that starts with the word for a lookup takes
    /// the row id from the first argument, and what stands behind the word holds constraints on that
    /// row. Any other holds constraints on all rows.
    pub open spec fn filter(self, s: StoreView, args: Seq<ArgView>, idx: Seq<char>) -> (
        Result<ResultCode, Stop>,
        CursorView,
        StoreView,
    ) {
        let bytes = vstd::utf8::encode_utf8(idx);
        if is_lookup(bytes) && args.len() > 0 {
            let c = CursorView {
                constraints: constraints_from(behind_word(bytes), args.skip(1), 0, Seq::empty()),
                ..self.rewound()
            };
            match args[0].integer {
                None => (Ok(ResultCode::OK), c, s),
                Some(id) => c.settle(c.find_row(s, id)),
            }
        } else {
            CursorView {
                constraints: constraints_from(bytes, args, 0, Seq::empty()),
                todo: seq![Visit { nodeno: 1, levels: RTREE_QUERY_LEVELS }],
                ..self.rewound()
            }.advance(s, ResultCode::OK)
        }
    }

    /// Going to the next row. A lookup has no other row.
    pub open spec fn next(self, s: StoreView) -> (Result<ResultCode, Stop>, CursorView, StoreView) {
        self.advance(s, ResultCode::EOF)
    }

    /// A column of the current row: the row id, the coordinates, the auxiliary columns, and NULL
    /// behind them.
    pub open spec fn column(self, i: nat) -> ColumnView {
        if i == 0 {
            ColumnView::Plain(ValueView::Integer(self.rowid))
        } else if i <= self.n_dim2 {
            ColumnView::Coordinate(self.current_coords[i - 1])
        } else if i - 1 - self.n_dim2 < self.aux_values.len() {
            ColumnView::Plain(self.aux_values[i - 1 - self.n_dim2].owned())
        } else {
            ColumnView::Plain(ValueView::Null)
        }
    }
}

/// The index string that is meant when none is given.
pub open spec fn index_string(idx_info: Option<(&str, i32)>) -> Seq<char> {
    match idx_info {
        Some((s, _)) => s@,
        None => "query"@,
    }
}

/// The constraints that the bytes of an index string from `from` on, and the arguments of a query
/// from `first` on, encode.
fn decode_constraints(bytes: &[u8], from: usize, args: &Vec<Arg>, first: usize) -> (constraints: Vec<
    RtreeConstraint,
>)
    requires
        from <= bytes.len(),
        first <= args.len(),
    ensures
        constraints@ == constraints_from(
            bytes@.skip(from as int),
            value::arg_views(args@).skip(first as int),
            0,
            Seq::empty(),
        ),
{
    let ghost views = value::arg_views(args@).skip(first as int);
    let ghost pairs = bytes@.skip(from as int);
    let n_pairs: usize = (bytes.len() - from) / 2;
    let n_args: usize = args.len() - first;
    let mut constraints: Vec<RtreeConstraint> = Vec::new();
    let mut k: usize = 0;
    while k < n_pairs
        invariant
            from <= bytes.len(),
            first <= args.len(),
            n_pairs == (bytes.len() - from) / 2,
            n_args == args.len() - first,
            k <= n_pairs,
            views == value::arg_views(args@).skip(first as int),
            pairs == bytes@.skip(from as int),
            constraints_from(pairs, views, k as int, constraints@) == constraints_from(
                pairs,
                views,
                0,
                Seq::empty(),
            ),
        decreases n_pairs - k,
    {
        let op: u8 = bytes[from + 2 * k];
        let coord_digit: u8 = bytes[from + 2 * k + 1];
        assert(pairs[2 * k] == op && pairs[2 * k + 1] == coord_digit);
        if k < n_args && coord_digit >= 0x30 {
            assert(views[k as int] == args@[first + k]@);
            if let Some(value) = args[first + k].real {
                let i_coord: usize = (coord_digit - 0x30) as usize;
                constraints.push(RtreeConstraint { i_coord, op, value });
            }
        }
        k = k + 1;
    }
    constraints
}

/// Whether an index string starts with the word for a lookup.
fn starts_lookup(bytes: &[u8]) -> (r: bool)
    ensures
        r == is_lookup(bytes@),
{
    let word = "rowid_lookup".as_bytes();
    if bytes.len() < word.len() {
        return false;
    }
    let mut i: usize = 0;
    while i < word.len()
        invariant
            word@ == lookup_word(),
            i <= word.len() <= bytes.len(),
            forall|j: int| 0 <= j < i ==> #[trigger] bytes@[j] == word@[j],
        decreases word.len() - i,
    {
        if bytes[i] != word[i] {
            assert(bytes@.take(word.len() as int)[i as int] != word@[i as int]);
            return false;
        }
        i = i + 1;
    }
    assert(bytes@.take(word.len() as int) =~= word@);
    true
}

fn copy_strings(strings: &Vec<String>) -> (r: Vec<String>)
    ensures
        table::string_views(r@) == table::string_views(strings@),
{
    let mut out: Vec<String> = Vec::new();
    let mut i: usize = 0;
    while i < strings.len()
        invariant
            i <= strings.len(),
            out.len() == i,
            forall|j: int| 0 <= j < i ==> #[trigger] out@[j]@ == strings@[j]@,
        decreases strings.len() - i,
    {
        out.push(strings[i].clone());
        i = i + 1;
    }
    assert(table::string_views(out@) =~= table::string_views(strings@));
    out
}

impl RtreeTable {
    /// A cursor on the table that is not on any row yet.
    pub fn open(&self) -> (r: Result<RtreeCursor, ResultCode>)
        ensures
            r matches Ok(c) && c@ == (CursorView {
                at_eof: true,
                rowid: 0,
                current_coords: CellView::blank(0).coords,
                constraints: Seq::empty(),
                todo: Seq::empty(),
                ready: Seq::empty(),
                n_dim2: self.n_dim2,
                n_bytes_per_cell: self.n_bytes_per_cell,
                node_size: self.node_size,
                table_name: self.table_name@,
                aux_columns: table::string_views(self.aux_columns@),
                aux_values: Seq::empty(),
            }),
            self@.wf() ==> r->Ok_0@.wf(),
    {
        Ok(
            RtreeCursor::new(
                self.n_dim2,
                self.n_bytes_per_cell,
                self.node_size,
                self.table_name.clone(),
                copy_strings(&self.aux_columns),
            ),
        )
    }
}

impl RtreeCursor {
    pub fn new(
        n_dim2: usize,
        n_bytes_per_cell: usize,
        node_size: usize,
        table_name: String,
        aux_columns: Vec<String>,
    ) -> (c: RtreeCursor)
        ensures
            c@ == (CursorView {
                at_eof: true,
                rowid: 0,
                current_coords: CellView::blank(0).coords,
                constraints: Seq::empty(),
                todo: Seq::empty(),
                ready: Seq::empty(),
                n_dim2,
                n_bytes_per_cell,
                node_size,
                table_name: table_name@,
                aux_columns: table::string_views(aux_columns@),
                aux_values: Seq::empty(),
            }),
    {
        let c = RtreeCursor {
            at_eof: true,
            rowid: 0,
            current_coords: RtreeCell::new(0).coords,
            constraints: Vec::new(),
            todo: Vec::new(),
            ready: Vec::new(),
            n_dim2,
            n_bytes_per_cell,
            node_size,
            table_name,
            aux_columns,
            aux_values: Vec::new(),
        };
        assert(c@.aux_values =~= Seq::empty());
        assert(c@.ready =~= Seq::empty());
        c
    }

    pub fn load_node(&self, store: &mut ShadowStore, node_no: i64) -> (r: Result<
        Option<RtreeNode>,
        Stop,
    >)
        requires
            self@.table().wf(),
            old(store)@.wf(self@.table()),
        ensures
            (tree_read::node_result(r), final(store)@) == self@.load_node(old(store)@, node_no),
            final(store)@.wf(self@.table()),
            r matches Ok(Some(n)) ==> self@.table().holds(n.data@) && n.node_no == node_no,
    {
        if !store.connected {
            return Ok(None);
        }
        match store.fetch_node(node_no) {
            Ok(NodeRow::Blob(blob)) => {
                assert(StoreView::sound_page(
                    self@.table(),
                    node_no,
                    old(store)@.nodes[node_no],
                ));
                let depth: usize = if node_no == 1 {
                    (blob[0] as usize) * 256 + (blob[1] as usize)
                } else {
                    0
                };
                let data: Vec<u8> = bytes::fit(&blob, self.node_size);
                Ok(Some(RtreeNode { node_no, depth, data, is_dirty: false }))
            },
            Ok(_) => Ok(None),
            Err(stop) => Err(stop),
        }
    }

    pub fn load_aux_values(&mut self, store: &mut ShadowStore) -> (r: Result<ResultCode, Stop>)
        ensures
            (r, final(self)@, final(store)@) == old(self)@.load_aux(old(store)@),
            forall|t: TableView| old(store)@.wf(t) ==> #[trigger] final(store)@.wf(t),
    {
        self.aux_values.clear();
        assert(self@.aux_values =~= Seq::empty());
        if self.aux_columns.len() == 0 || self.rowid == 0 {
            return Ok(ResultCode::OK);
        }
        if !store.connected {
            return Ok(ResultCode::Error);
        }
        match store.fetch_aux(self.rowid) {
            Ok(AuxRow::Failed) => Ok(ResultCode::Error),
            Ok(AuxRow::Missing) => Ok(ResultCode::OK),
            Ok(AuxRow::Values(row)) => {
                self.aux_values = value::values_to_owned(&row);
                Ok(ResultCode::OK)
            },
            Err(stop) => Err(stop),
        }
    }

    /// Moves to the row of a cell.
    fn arrive(&mut self, store: &mut ShadowStore, cell: &RtreeCell) -> (r: Result<ResultCode, Stop>)
        ensures
            (r, final(self)@, final(store)@) == old(self)@.arrive(old(store)@, cell@),
            forall|t: TableView| old(store)@.wf(t) ==> #[trigger] final(store)@.wf(t),
    {
        self.rowid = cell.rowid;
        let mut k: usize = 0;
        while k < 10
            invariant
                k <= 10,
                forall|j: int|
                    0 <= j < RTREE_MAX_COORDS ==> #[trigger] self.current_coords@[j] == if j < k
                        && j < 2 * self.n_dim2 {
                        cell.coords@[j]
                    } else {
                        old(self).current_coords@[j]
                    },
                self@ == (CursorView {
                    rowid: cell.rowid,
                    current_coords: self.current_coords@,
                    ..old(self)@
                }),
            decreases 10 - k,
        {
            if k / 2 < self.n_dim2 {
                self.current_coords[k] = cell.coords[k];
            }
            k = k + 1;
        }
        self.at_eof = false;
        assert(self@.current_coords =~= old(self)@.standing_on(cell@).current_coords);
        self.load_aux_values(store)
    }

    /// Whether a node is a leaf.
    fn is_leaf(&self, store: &mut ShadowStore, node: &RtreeNode) -> (r: Result<bool, Stop>)
        requires
            self@.wf(),
            self@.table().holds(node.data@),
        ensures
            (r, final(store)@) == self@.table().is_leaf(old(store)@, node@),
            forall|t: TableView| old(store)@.wf(t) ==> #[trigger] final(store)@.wf(t),
    {
        if node.node_no == 1 {
            return Ok(node.tree_depth() == 0);
        }
        if node.cell_count() == 0 {
            return Ok(true);
        }
        proof {
            self@.table().lemma_cell_inside(node.data@, 0);
        }
        let first: i64 = node.get_cell(self.n_dim2, self.n_bytes_per_cell, 0).rowid;
        if first <= 1 {
            return Ok(true);
        }
        match store.fetch_parent(first) {
            Ok(NumberRow::Failed) => Err(Stop::Code(ResultCode::Error)),
            Ok(NumberRow::Missing) => Ok(true),
            Ok(NumberRow::Number(parent)) => Ok(parent != node.node_no),
            Err(stop) => Err(stop),
        }
    }

    /// Makes the rows of a leaf that meet the constraints ready.
    fn prepare_rows(&mut self, node: &RtreeNode)
        requires
            old(self)@.wf(),
            old(self)@.table().holds(node.data@),
            old(self)@.ready.len() == 0,
        ensures
            final(self)@ == (CursorView {
                ready: hits(
                    old(self)@.table().cells(node.data@),
                    old(self)@.constraints,
                    old(self).n_dim2 as nat,
                ),
                ..old(self)@
            }),
    {
        let ghost t = self@.table();
        let ghost cells = t.cells(node.data@);
        let n: usize = node.cell_count();
        let mut i: usize = n;
        assert(cells.skip(n as int).len() == 0);
        assert(old(self).ready@.len() == old(self)@.ready.len());
        while i > 0
            invariant
                t == old(self)@.table(),
                t.wf(),
                t.holds(node.data@),
                cells == t.cells(node.data@),
                n == cells.len(),
                i <= n,
                self@ == (CursorView {
                    ready: hits(
                        cells.skip(i as int),
                        old(self)@.constraints,
                        old(self).n_dim2 as nat,
                    ),
                    ..old(self)@
                }),
            decreases i,
        {
            i = i - 1;
            proof {
                t.lemma_cell_inside(node.data@, i as int);
                assert(cells.skip(i as int).drop_first() =~= cells.skip(i + 1));
            }
            let cell: RtreeCell = node.get_cell(self.n_dim2, self.n_bytes_per_cell, i);
            assert(cell@ == cells[i as int]);
            if constraint::matches_leaf(&self.constraints, &cell, self.n_dim2) {
                let ghost before = self.ready@;
                self.ready.push(cell);
                assert(node::cell_views(self.ready@) =~= node::cell_views(before).push(cell@));
            }
        }
        assert(cells.skip(0) =~= cells);
    }

    /// Notes the children of a node that the constraints do not exclude for a visit.
    fn plan_visits(&mut self, node: &RtreeNode, levels: u64)
        requires
            old(self)@.wf(),
            old(self)@.table().holds(node.data@),
        ensures
            final(self)@ == (CursorView {
                todo: old(self)@.todo + visits(
                    old(self)@.table().cells(node.data@),
                    old(self)@.constraints,
                    old(self).n_dim2 as nat,
                    levels,
                ),
                ..old(self)@
            }),
    {
        let ghost t = self@.table();
        let ghost cells = t.cells(node.data@);
        let n: usize = node.cell_count();
        let mut i: usize = n;
        assert(cells.skip(n as int).len() == 0);
        assert(self@.todo =~= old(self)@.todo + Seq::<Visit>::empty());
        while i > 0
            invariant
                t == old(self)@.table(),
                t.wf(),
                t.holds(node.data@),
                cells == t.cells(node.data@),
                n == cells.len(),
                i <= n,
                self@ == (CursorView {
                    todo: old(self)@.todo + visits(
                        cells.skip(i as int),
                        old(self)@.constraints,
                        old(self).n_dim2 as nat,
                        levels,
                    ),
                    ..old(self)@
                }),
            decreases i,
        {
            i = i - 1;
            proof {
                t.lemma_cell_inside(node.data@, i as int);
                assert(cells.skip(i as int).drop_first() =~= cells.skip(i + 1));
            }
            let cell: RtreeCell = node.get_cell(self.n_dim2, self.n_bytes_per_cell, i);
            assert(cell@ == cells[i as int]);
            if constraint::matches_nonleaf(&self.constraints, &cell, self.n_dim2) {
                let ghost before = self.todo@;
                self.todo.push(Visit { nodeno: cell.rowid, levels });
                assert(self.todo@ =~= old(self)@.todo + visits(
                    cells.skip(i as int),
                    old(self)@.constraints,
                    old(self).n_dim2 as nat,
                    levels,
                ));
            }
        }
        assert(cells.skip(0) =~= cells);
    }

    /// Goes on to the next row.
    fn advance(&mut self, store: &mut ShadowStore, missed: ResultCode) -> (r: Result<
        ResultCode,
        Stop,
    >)
        requires
            old(self)@.wf(),
            old(store)@.wf(old(self)@.table()),
        ensures
            (r, final(self)@, final(store)@) == old(self)@.advance(old(store)@, missed),
            final(self)@.wf(),
            final(store)@.wf(final(self)@.table()),
    {
        let ghost t = self@.table();
        loop
            invariant
                t == self@.table(),
                t.wf(),
                store@.wf(t),
                self@.advance(store@, missed) == old(self)@.advance(old(store)@, missed),
            decreases weight(self@.todo),
        {
            reveal(CursorView::advance);
            let ghost c0 = self@;
            let ghost held = self.ready@;
            assert(held.len() == c0.ready.len());
            if self.ready.len() > 0 {
                let cell: RtreeCell = self.ready[self.ready.len() - 1];
                assert(cell@ == c0.ready.last());
                self.ready.pop();
                assert(node::cell_views(self.ready@) =~= c0.ready.drop_last());
                return self.arrive(store, &cell);
            }
            if self.todo.len() == 0 {
                self.at_eof = true;
                return Ok(missed);
            }
            let visit: Visit = self.todo[self.todo.len() - 1];
            self.todo.pop();
            self.at_eof = true;
            assert(self.todo@ =~= c0.todo.drop_last());
            proof {
                lemma_visit_leads_on(c0.todo, Seq::empty(), Seq::empty(), 0);
            }
            let node: RtreeNode = match self.load_node(store, visit.nodeno) {
                Ok(Some(node)) => node,
                Ok(None) => {
                    continue;
                },
                Err(stop) => {
                    return Err(stop);
                },
            };
            proof {
                t.lemma_room();
                lemma_visit_leads_on(
                    c0.todo,
                    t.cells(node.data@),
                    c0.constraints,
                    c0.n_dim2 as nat,
                );
            }
            match self.is_leaf(store, &node) {
                Err(Stop::Wait) => {
                    return Err(Stop::Wait);
                },
                Err(Stop::Code(code)) => {
                    return Ok(code);
                },
                Ok(true) => {
                    self.prepare_rows(&node);
                },
                Ok(false) => {
                    if visit.levels == 0 {
                        return Ok(ResultCode::Corrupt);
                    }
                    self.plan_visits(&node, visit.levels - 1);
                },
            }
        }
    }

    /// Finds one row by its row id.
    fn find_row(&self, store: &mut ShadowStore, id: i64) -> (r: Result<Option<RtreeCell>, Stop>)
        requires
            self@.wf(),
            old(store)@.wf(self@.table()),
        ensures
            (found_result(r), final(store)@) == self@.find_row(old(store)@, id),
            final(store)@.wf(self@.table()),
    {
        reveal(CursorView::find_row);
        let ghost t = self@.table();
        if !store.connected {
            return Ok(None);
        }
        let nodeno: i64 = match store.fetch_rowid(id) {
            Ok(NumberRow::Number(nodeno)) => nodeno,
            Ok(_) => {
                return Ok(None);
            },
            Err(stop) => {
                return Err(stop);
            },
        };
        let node: RtreeNode = match self.load_node(store, nodeno) {
            Ok(Some(node)) => node,
            Ok(None) => {
                return Ok(None);
            },
            Err(stop) => {
                return Err(stop);
            },
        };
        let n_cells: usize = node.cell_count();
        let ghost cells = t.cells(node.data@);
        let mut i: usize = 0;
        while i < n_cells
            invariant
                t == self@.table(),
                t.wf(),
                t.holds(node.data@),
                cells == t.cells(node.data@),
                n_cells == cells.len(),
                i <= n_cells,
                forall|j: int| 0 <= j < i ==> #[trigger] cells[j].rowid != id,
                store@.wf(t),
                self@.find_row(old(store)@, id) == (match table::index_of_rowid(cells, id) {
                    Some(i) => (Ok::<_, Stop>(Some(cells[i])), store@),
                    None => (Ok::<_, Stop>(None), store@),
                }),
            decreases n_cells - i,
        {
            proof {
                t.lemma_cell_inside(node.data@, i as int);
            }
            let cell: RtreeCell = node.get_cell(self.n_dim2, self.n_bytes_per_cell, i);
            assert(cell@ == cells[i as int]);
            if cell.rowid == id {
                proof {
                    table::lemma_index_of_rowid(cells, id, i as int);
                }
                return Ok(Some(cell));
            }
            i = i + 1;
        }
        proof {
            table::lemma_found_by_rowid(cells, id);
        }
        Ok(None)
    }

    /// Ends a lookup: on the row that was found where it meets the constraints, or behind the last
    /// row.
    fn settle(
        &mut self,
        store: &mut ShadowStore,
        found: Result<Option<RtreeCell>, Stop>,
    ) -> (r: Result<ResultCode, Stop>)
        requires
            old(self)@.wf(),
        ensures
            (r, final(self)@, final(store)@) == old(self)@.settle(
                (found_result(found), old(store)@),
            ),
            forall|t: TableView| old(store)@.wf(t) ==> #[trigger] final(store)@.wf(t),
    {
        match found {
            Ok(Some(cell)) => {
                if constraint::matches_leaf(&self.constraints, &cell, self.n_dim2) {
                    return self.arrive(store, &cell);
                }
                self.at_eof = true;
                Ok(ResultCode::OK)
            },
            Ok(None) => {
                self.at_eof = true;
                Ok(ResultCode::OK)
            },
            Err(stop) => Err(stop),
        }
    }

    /// Starts a query.
    pub fn filter(
        &mut self,
        store: &mut ShadowStore,
        args: &Vec<Arg>,
        idx_info: Option<(&str, i32)>,
    ) -> (r: Result<ResultCode, Stop>)
        requires
            old(self)@.wf(),
            old(store)@.wf(old(self)@.table()),
        ensures
            (r, final(self)@, final(store)@) == old(self)@.filter(
                old(store)@,
                value::arg_views(args@),
                index_string(idx_info),
            ),
            final(self)@.wf(),
            final(store)@.wf(final(self)@.table()),
    {
        let ghost views = value::arg_views(args@);
        self.at_eof = true;
        self.constraints.clear();
        self.todo.clear();
        self.ready.clear();
        self.aux_values.clear();
        self.rowid = 0;
        assert(self@.aux_values =~= Seq::empty());
        assert(self@.ready =~= Seq::empty());
        assert(self@ == old(self)@.rewound());
        let idx_str: &str = match idx_info {
            Some((s, _)) => s,
            None => "query",
        };
        let bytes = idx_str.as_bytes();
        if args.len() > 0 && starts_lookup(bytes) {
            assert(views[0] == args@[0]@);
            proof {
                lemma_lookup_word();
            }
            self.constraints = decode_constraints(bytes, 12, args, 1);
            return match args[0].integer {
                None => Ok(ResultCode::OK),
                Some(id) => {
                    let found = self.find_row(store, id);
                    self.settle(store, found)
                },
            };
        }
        self.constraints = decode_constraints(bytes, 0, args, 0);
        self.todo.push(Visit { nodeno: 1, levels: RTREE_QUERY_LEVELS });
        proof {
            assert(bytes@.skip(0) =~= bytes@);
            assert(views.skip(0) =~= views);
            assert(self.todo@ =~= seq![Visit { nodeno: 1, levels: RTREE_QUERY_LEVELS }]);
        }
        self.advance(store, ResultCode::OK)
    }

    /// Goes to the next row.
    pub fn next(&mut self, store: &mut ShadowStore) -> (r: Result<ResultCode, Stop>)
        requires
            old(self)@.wf(),
            old(store)@.wf(old(self)@.table()),
        ensures
            (r, final(self)@, final(store)@) == old(self)@.next(old(store)@),
            final(self)@.wf(),
            final(store)@.wf(final(self)@.table()),
    {
        self.advance(store, ResultCode::EOF)
    }

    pub fn rowid(&self) -> (r: i64)
        ensures
            r == self.rowid,
    {
        self.rowid
    }

    /// A column of the current row.
    pub fn column(&self, idx: u32) -> (r: Result<ColumnValue, ResultCode>)
        requires
            self.n_dim2 <= RTREE_MAX_COORDS,
        ensures
            r matches Ok(v) && v@ == self@.column(idx as nat),
    {
        if idx == 0 {
            return Ok(ColumnValue::Plain(Value::Integer(self.rowid)));
        }
        let i: usize = idx as usize;
        if i <= self.n_dim2 {
            return Ok(ColumnValue::Coordinate(self.current_coords[i - 1]));
        }
        let aux_i: usize = i - 1 - self.n_dim2;
        if aux_i < self.aux_values.len() {
            return Ok(ColumnValue::Plain(value::value_to_owned(&self.aux_values[aux_i])));
        }
        Ok(ColumnValue::Plain(Value::Null))
    }

    pub fn eof(&self) -> (r: bool)
        ensures
            r == self.at_eof,
    {
        self.at_eof
    }

    pub fn close(&self) -> (r: ResultCode)
        ensures
            r == ResultCode::OK,
    {
        ResultCode::OK
    }
}

} // verus!
