//! Inserting, updating and dropping, as the SQL engine asks for them.

use vstd::prelude::*;
use crate::coord::Coord;
use crate::node;
use crate::node::{CellView, RtreeCell, RtreeNode, RTREE_MAX_COORDS};
use crate::store;
use crate::store::{ShadowStore, Stop, StoreView, Write, WriteView};
use crate::table;
use crate::table::{RtreeTable, TableView};
use crate::value;
use crate::value::{Arg, ArgView, ResultCode, Value, ValueView};

verus! {

/// The model of a stored row, if there is one.
pub open spec fn stored_result(r: Result<Option<(RtreeCell, Vec<Value>)>, Stop>) -> Result<
    Option<(CellView, Seq<ValueView>)>,
    Stop,
> {
    match r {
        Ok(stored) => Ok(stored_view(stored)),
        Err(stop) => Err(stop),
    }
}

/// The model of what is stored of a row.
pub open spec fn stored_view(stored: Option<(RtreeCell, Vec<Value>)>) -> Option<
    (CellView, Seq<ValueView>),
> {
    match stored {
        Some((cell, aux)) => Some((cell@, value::value_views(aux@))),
        None => None,
    }
}

impl TableView {
    /// How many arguments a row takes: the row id, the coordinates, the auxiliary columns.
    pub open spec fn row_width(self) -> nat {
        self.n_dim2 as nat + 1 + self.aux_columns.len()
    }

    /// The box that the arguments of a row describe. A coordinate that is not a number is 0.
    pub open spec fn row_coords(self, args: Seq<ArgView>) -> Seq<Coord> {
        Seq::new(
            RTREE_MAX_COORDS as nat,
            |k: int|
                if k < self.n_dim2 {
                    match args[k + 1].real {
                        Some(c) => c,
                        None => Coord::spec_zero(),
                    }
                } else {
                    Coord::spec_zero()
                },
        )
    }

    /// The auxiliary columns among the arguments of a row.
    pub open spec fn row_aux(self, args: Seq<ArgView>) -> Seq<ValueView> {
        Seq::new(self.aux_columns.len(), |k: int| args[self.n_dim2 + 1 + k].value)
    }

    /// In every dimension the first coordinate is at most the second.
    pub open spec fn proper_box(self, coords: Seq<Coord>) -> bool {
        forall|d: int| 0 <= d < self.n_dim2 / 2 ==> #[trigger] in_order(coords, d)
    }

    /// The row id that a row is inserted under: the one asked for, else the next one. The lowest
    /// number is next to the highest.
    pub open spec fn assigned_rowid(self, args: Seq<ArgView>) -> i64 {
        match args[0].integer {
            Some(id) => id,
            None => if self.row_count == i64::MAX {
                i64::MIN
            } else {
                (self.row_count + 1) as i64
            },
        }
    }

    /// The table with the row id of a row counted in.
    pub open spec fn counted_in(self, args: Seq<ArgView>) -> TableView {
        let rowid = self.assigned_rowid(args);
        TableView {
            row_count: if args[0].integer is None || rowid > self.row_count {
                rowid
            } else {
                self.row_count
            },
            ..self
        }
    }

    /// Inserting a row. Its box has to be a proper one, and no row has its row id yet.
    pub open spec fn insert(self, s: StoreView, args: Seq<ArgView>) -> (
        Result<i64, Stop>,
        TableView,
        StoreView,
    ) {
        if !s.connected || args.len() < self.row_width() {
            (Err(Stop::Code(ResultCode::InvalidArgs)), self, s)
        } else if !self.proper_box(self.row_coords(args)) {
            (Err(Stop::Code(ResultCode::ConstraintViolation)), self, s)
        } else {
            let rowid = self.assigned_rowid(args);
            let t1 = self.counted_in(args);
            let (taken, s1) = if t1.node_count == 0 {
                (Ok(None), s)
            } else {
                t1.get_rowid_nodeno(s, rowid)
            };
            match taken {
                Err(stop) => (Err(stop), t1, s1),
                Ok(Some(_)) => (Err(Stop::Code(ResultCode::ConstraintViolation)), t1, s1),
                Ok(None) => {
                    let cell = CellView { rowid, coords: self.row_coords(args) };
                    match t1.insert_leaf_row(s1, rowid, cell, self.row_aux(args)) {
                        (Err(stop), t2, s2) => (Err(stop), t2, s2),
                        (Ok(()), t2, s2) => (Ok(rowid), t2, s2),
                    }
                },
            }
        }
    }

    /// Reading the box and the auxiliary columns of a row.
    pub open spec fn stored_row(self, s: StoreView, rowid: i64) -> (
        Result<Option<(CellView, Seq<ValueView>)>, Stop>,
        StoreView,
    ) {
        match self.get_rowid_nodeno(s, rowid) {
            (Err(stop), s1) => (Err(stop), s1),
            (Ok(None), s1) => (Ok(None), s1),
            (Ok(Some(nodeno)), s1) => match self.read_node(s1, nodeno) {
                (Err(stop), s2) => (Err(stop), s2),
                (Ok(None), s2) => (Ok(None), s2),
                (Ok(Some(n)), s2) => match table::index_of_rowid(self.cells(n.data), rowid) {
                    None => (Ok(None), s2),
                    Some(idx) => match self.read_rowid_aux_values(s2, rowid) {
                        (Err(stop), s3) => (Err(stop), s3),
                        (Ok(aux), s3) => (Ok(Some((self.cells(n.data)[idx], aux))), s3),
                    },
                },
            },
        }
    }

    /// Some argument of a row is NULL.
    pub open spec fn has_placeholder(self, args: Seq<ArgView>) -> bool {
        exists|i: int| 0 <= i < self.row_width() && #[trigger] args[i].value is Null
    }

    /// The arguments of a row with each NULL replaced by what the stored row has there.
    pub open spec fn merged(
        self,
        args: Seq<ArgView>,
        rowid: i64,
        stored: Option<(CellView, Seq<ValueView>)>,
    ) -> Seq<ArgView> {
        match stored {
            None => args,
            Some((cell, aux)) => Seq::new(
                args.len(),
                |i: int| self.merged_arg(args[i], rowid, cell, aux, i),
            ),
        }
    }

    /// Argument `i` of a row, or what the stored row has there when it is NULL.
    pub open spec fn merged_arg(
        self,
        arg: ArgView,
        rowid: i64,
        cell: CellView,
        aux: Seq<ValueView>,
        i: int,
    ) -> ArgView {
        if !(arg.value is Null) || i >= self.row_width() {
            arg
        } else if i == 0 {
            ArgView { integer: Some(rowid), ..arg }
        } else if i <= self.n_dim2 {
            ArgView { real: Some(cell.coords[i - 1]), ..arg }
        } else {
            ArgView { value: aux[i - 1 - self.n_dim2], ..arg }
        }
    }

    /// The arguments that an update inserts, after looking at the stored row where needed.
    pub open spec fn update_args(self, s: StoreView, rowid: i64, args: Seq<ArgView>) -> (
        Result<Seq<ArgView>, Stop>,
        StoreView,
    ) {
        if !self.has_placeholder(args) {
            (Ok(args), s)
        } else {
            match self.stored_row(s, rowid) {
                (Err(stop), s1) => (Err(stop), s1),
                (Ok(stored), s1) => (Ok(self.merged(args, rowid, stored)), s1),
            }
        }
    }

    /// Whether a row may take the place of another: its box has to be a proper one, and no third
    /// row has its row id.
    pub open spec fn check_update(self, s: StoreView, old_rowid: i64, row: Seq<ArgView>) -> (
        Result<(), Stop>,
        StoreView,
    ) {
        if !self.proper_box(self.row_coords(row)) {
            (Err(Stop::Code(ResultCode::ConstraintViolation)), s)
        } else if self.node_count == 0 || self.assigned_rowid(row) == old_rowid {
            (Ok(()), s)
        } else {
            match self.get_rowid_nodeno(s, self.assigned_rowid(row)) {
                (Err(stop), s1) => (Err(stop), s1),
                (Ok(Some(_)), s1) => (Err(Stop::Code(ResultCode::ConstraintViolation)), s1),
                (Ok(None), s1) => (Ok(()), s1),
            }
        }
    }

    /// Updating a row: deleting it and inserting it again. A row that would not be inserted is
    /// refused before anything is deleted.
    pub open spec fn update(self, s: StoreView, old_rowid: i64, args: Seq<ArgView>) -> (
        Result<(), Stop>,
        TableView,
        StoreView,
    ) {
        if !s.connected || args.len() < self.row_width() {
            (Err(Stop::Code(ResultCode::InvalidArgs)), self, s)
        } else {
            match self.update_args(s, old_rowid, args) {
                (Err(stop), s1) => (Err(stop), self, s1),
                (Ok(row), s1) => match self.check_update(s1, old_rowid, row) {
                    (Err(stop), s2) => (Err(stop), self, s2),
                    (Ok(()), s2) => match self.delete(s2, old_rowid) {
                        (Err(stop), t3, s3) => (Err(stop), t3, s3),
                        (Ok(()), t3, s3) => match t3.insert(s3, row) {
                            (Err(stop), t4, s4) => (Err(stop), t4, s4),
                            (Ok(_), t4, s4) => (Ok(()), t4, s4),
                        },
                    },
                },
            }
        }
    }

    /// Dropping the shadow tables. Without a connection there is nothing to drop them through.
    pub open spec fn destroy(self, s: StoreView) -> (Result<(), Stop>, StoreView) {
        if !s.connected {
            (Ok(()), s)
        } else {
            s.issue_all(
                seq![
                    WriteView::DropNodeTable,
                    WriteView::DropRowidTable,
                    WriteView::DropParentTable,
                ],
            )
        }
    }
}

/// In dimension `d` the first coordinate is at most the second.
pub open spec fn in_order(coords: Seq<Coord>, d: int) -> bool {
    coords[2 * d].at_most(coords[2 * d + 1])
}

/// The model of a list of arguments.
pub open spec fn args_result(r: Result<Vec<Arg>, Stop>) -> Result<Seq<ArgView>, Stop> {
    match r {
        Ok(args) => Ok(value::arg_views(args@)),
        Err(stop) => Err(stop),
    }
}

fn copy_arg(arg: &Arg) -> (r: Arg)
    ensures
        r@ == arg@,
{
    Arg { integer: arg.integer, real: arg.real, value: value::copy_value(&arg.value) }
}

fn is_null(v: &Value) -> (r: bool)
    ensures
        r == (v@ is Null),
{
    match v {
        Value::Null => true,
        _ => false,
    }
}

impl RtreeTable {
    /// The box that the arguments of a row describe, or nothing where it is not a proper one.
    fn row_box(&self, args: &Vec<Arg>) -> (r: Option<RtreeCell>)
        requires
            self@.wf(),
            args@.len() >= self@.row_width(),
        ensures
            match r {
                Some(cell) => self@.proper_box(self@.row_coords(value::arg_views(args@)))
                    && cell.coords@ == self@.row_coords(value::arg_views(args@)),
                None => !self@.proper_box(self@.row_coords(value::arg_views(args@))),
            },
    {
        let ghost views = value::arg_views(args@);
        let ghost t = self@;
        let mut cell = RtreeCell::new(0);
        let mut i: usize = 0;
        while i < self.n_dim2
            invariant
                self@ == t,
                t.wf(),
                views == value::arg_views(args@),
                i <= self.n_dim2 < args.len(),
                forall|k: int|
                    0 <= k < RTREE_MAX_COORDS ==> #[trigger] cell.coords@[k] == if k < i {
                        t.row_coords(views)[k]
                    } else {
                        Coord::spec_zero()
                    },
            decreases self.n_dim2 - i,
        {
            assert(views[i + 1] == args@[i + 1]@);
            if let Some(c) = args[i + 1].real {
                cell.coords[i] = c;
            }
            i = i + 1;
        }
        assert(cell.coords@ =~= t.row_coords(views));
        let mut d: usize = 0;
        while d < self.n_dim2 / 2
            invariant
                self@ == t,
                t.wf(),
                views == value::arg_views(args@),
                d <= self.n_dim2 / 2,
                cell.coords@ == t.row_coords(views),
                forall|e: int| 0 <= e < d ==> #[trigger] in_order(cell.coords@, e),
            decreases self.n_dim2 / 2 - d,
        {
            if !cell.coords[2 * d].le(cell.coords[2 * d + 1]) {
                assert(!in_order(cell.coords@, d as int));
                assert(!t.proper_box(cell.coords@));
                return None;
            }
            d = d + 1;
        }
        Some(cell)
    }

    /// The row id that a row is inserted under.
    fn next_rowid(&self, args: &Vec<Arg>) -> (r: i64)
        requires
            args@.len() > 0,
        ensures
            r == self@.assigned_rowid(value::arg_views(args@)),
    {
        assert(value::arg_views(args@)[0] == args@[0]@);
        match args[0].integer {
            Some(id) => id,
            None => self.row_count.wrapping_add(1),
        }
    }

    /// Whether a row may take the place of another.
    fn check_update(&self, store: &mut ShadowStore, old_rowid: i64, row: &Vec<Arg>) -> (r: Result<
        (),
        Stop,
    >)
        requires
            self@.wf(),
            row@.len() >= self@.row_width(),
        ensures
            (r, final(store)@) == self@.check_update(
                old(store)@,
                old_rowid,
                value::arg_views(row@),
            ),
            forall|t: TableView| old(store)@.wf(t) ==> #[trigger] final(store)@.wf(t),
            final(store)@.connected == old(store)@.connected,
    {
        if self.row_box(row).is_none() {
            return Err(Stop::Code(ResultCode::ConstraintViolation));
        }
        let rowid: i64 = self.next_rowid(row);
        if self.node_count == 0 || rowid == old_rowid {
            return Ok(());
        }
        match self.get_rowid_nodeno(store, rowid) {
            Ok(None) => Ok(()),
            Ok(Some(_)) => Err(Stop::Code(ResultCode::ConstraintViolation)),
            Err(stop) => Err(stop),
        }
    }

    /// Inserts a row and gives its row id.
    pub fn insert(&mut self, store: &mut ShadowStore, args: &Vec<Arg>) -> (r: Result<i64, Stop>)
        requires
            old(self)@.wf(),
            old(store)@.wf(old(self)@),
            old(self).node_count <= i64::MAX - 2,
        ensures
            (r, final(self)@, final(store)@) == old(self)@.insert(
                old(store)@,
                value::arg_views(args@),
            ),
            final(self)@.wf(),
            final(self)@.same_shape(old(self)@),
            final(store)@.wf(final(self)@),
    {
        if !store.connected {
            return Err(Stop::Code(ResultCode::InvalidArgs));
        }
        let ghost views = value::arg_views(args@);
        let ghost t = self@;
        let n_aux: usize = self.aux_columns.len();
        let required: usize = self.n_dim2 + 1 + n_aux;
        if args.len() < required {
            return Err(Stop::Code(ResultCode::InvalidArgs));
        }
        let mut cell: RtreeCell = match self.row_box(args) {
            Some(cell) => cell,
            None => {
                return Err(Stop::Code(ResultCode::ConstraintViolation));
            },
        };
        assert(views[0] == args@[0]@);
        let rowid: i64 = self.next_rowid(args);
        if args[0].integer.is_none() || rowid > self.row_count {
            self.row_count = rowid;
        }
        proof {
            t.lemma_wf_by_shape(self@, store@);
        }
        if self.node_count != 0 {
            match self.get_rowid_nodeno(store, rowid) {
                Ok(None) => {},
                Ok(Some(_)) => {
                    return Err(Stop::Code(ResultCode::ConstraintViolation));
                },
                Err(stop) => {
                    return Err(stop);
                },
            }
        }
        cell.rowid = rowid;
        let mut aux: Vec<Value> = Vec::new();
        let mut k: usize = 0;
        while k < n_aux
            invariant
                t.wf(),
                self@.same_shape(t),
                views == value::arg_views(args@),
                n_aux == t.aux_columns.len(),
                required == t.n_dim2 + 1 + n_aux,
                required <= args.len(),
                k <= n_aux,
                aux.len() == k,
                forall|j: int| 0 <= j < k ==> #[trigger] aux@[j]@ == t.row_aux(views)[j],
            decreases n_aux - k,
        {
            aux.push(value::copy_value(&args[self.n_dim2 + 1 + k].value));
            k = k + 1;
        }
        assert(value::value_views(aux@) =~= t.row_aux(views));
        match self.insert_leaf_row(store, rowid, &cell, &aux) {
            Ok(()) => Ok(rowid),
            Err(stop) => Err(stop),
        }
    }

    /// Reads the box and the auxiliary columns of a row.
    fn stored_row(&self, store: &mut ShadowStore, rowid: i64) -> (r: Result<
        Option<(RtreeCell, Vec<Value>)>,
        Stop,
    >)
        requires
            self@.wf(),
            old(store)@.wf(self@),
        ensures
            (stored_result(r), final(store)@) == self@.stored_row(old(store)@, rowid),
            final(store)@.wf(self@),
            r matches Ok(Some(row)) ==> row.1.len() == self.aux_columns.len(),
            final(store)@.connected == old(store)@.connected,
    {
        let nodeno: i64 = match self.get_rowid_nodeno(store, rowid) {
            Ok(Some(nodeno)) => nodeno,
            Ok(None) => {
                return Ok(None);
            },
            Err(stop) => {
                return Err(stop);
            },
        };
        let node: RtreeNode = match self.read_node(store, nodeno) {
            Ok(Some(node)) => node,
            Ok(None) => {
                return Ok(None);
            },
            Err(stop) => {
                return Err(stop);
            },
        };
        let idx: usize = match self.find_cell_index(&node, rowid) {
            Some(idx) => idx,
            None => {
                return Ok(None);
            },
        };
        proof {
            self@.lemma_cell_inside(node.data@, idx as int);
        }
        let cell: RtreeCell = node.get_cell(self.n_dim2, self.n_bytes_per_cell, idx);
        assert(cell@ == self@.cells(node.data@)[idx as int]);
        match self.read_rowid_aux_values(store, rowid) {
            Ok(aux) => Ok(Some((cell, aux))),
            Err(stop) => Err(stop),
        }
    }

    /// The arguments that an update inserts: NULL stands for what the stored row has.
    fn update_args(&self, store: &mut ShadowStore, rowid: i64, args: &Vec<Arg>) -> (r: Result<
        Vec<Arg>,
        Stop,
    >)
        requires
            self@.wf(),
            old(store)@.wf(self@),
            args@.len() >= self@.row_width(),
        ensures
            (args_result(r), final(store)@) == self@.update_args(
                old(store)@,
                rowid,
                value::arg_views(args@),
            ),
            final(store)@.wf(self@),
            final(store)@.connected == old(store)@.connected,
            r matches Ok(row) ==> row.len() == args.len(),
    {
        let ghost views = value::arg_views(args@);
        let ghost t = self@;
        let required: usize = self.n_dim2 + 1 + self.aux_columns.len();
        let mut placeholder = false;
        let mut i: usize = 0;
        while i < required
            invariant
                required == t.row_width(),
                required <= args.len(),
                views == value::arg_views(args@),
                i <= required,
                placeholder <==> (exists|j: int| 0 <= j < i && #[trigger] views[j].value is Null),
            decreases required - i,
        {
            assert(views[i as int] == args@[i as int]@);
            if is_null(&args[i].value) {
                placeholder = true;
            }
            i = i + 1;
        }
        let stored: Option<(RtreeCell, Vec<Value>)> = if placeholder {
            match self.stored_row(store, rowid) {
                Ok(stored) => stored,
                Err(stop) => {
                    return Err(stop);
                },
            }
        } else {
            None
        };
        let ghost merged = t.merged(views, rowid, stored_view(stored));
        let mut row: Vec<Arg> = Vec::new();
        let mut k: usize = 0;
        while k < args.len()
            invariant
                t == self@,
                t.wf(),
                required == t.row_width(),
                required <= args.len(),
                views == value::arg_views(args@),
                stored matches Some(pair) ==> pair.1.len() == t.aux_columns.len(),
                merged == t.merged(views, rowid, stored_view(stored)),
                k <= args.len(),
                row.len() == k,
                forall|j: int| 0 <= j < k ==> #[trigger] row@[j]@ == merged[j],
            decreases args.len() - k,
        {
            let mut arg: Arg = copy_arg(&args[k]);
            assert(views[k as int] == args@[k as int]@);
            if k < required && is_null(&arg.value) {
                if let Some((cell, aux)) = &stored {
                    if k == 0 {
                        arg.integer = Some(rowid);
                    } else if k <= self.n_dim2 {
                        arg.real = Some(cell.coords[k - 1]);
                    } else {
                        arg.value = value::copy_value(&aux[k - 1 - self.n_dim2]);
                    }
                }
            }
            row.push(arg);
            k = k + 1;
        }
        assert(value::arg_views(row@) =~= merged);
        proof {
            if !placeholder {
                assert(!t.has_placeholder(views));
            }
        }
        Ok(row)
    }

    /// Updates a row: deletes it and inserts it again, unless it would not be inserted.
    pub fn update(&mut self, store: &mut ShadowStore, old_rowid: i64, args: &Vec<Arg>) -> (r:
        Result<(), Stop>)
        requires
            old(self)@.wf(),
            old(store)@.wf(old(self)@),
            old(self)@.numbers_left((2 * old(self)@.max_cells()) as int),
        ensures
            (r, final(self)@, final(store)@) == old(self)@.update(
                old(store)@,
                old_rowid,
                value::arg_views(args@),
            ),
            final(self)@.wf(),
            final(self)@.same_shape(old(self)@),
            final(store)@.wf(final(self)@),
    {
        if !store.connected {
            return Err(Stop::Code(ResultCode::InvalidArgs));
        }
        let required: usize = self.n_dim2 + 1 + self.aux_columns.len();
        if args.len() < required {
            return Err(Stop::Code(ResultCode::InvalidArgs));
        }
        let row: Vec<Arg> = match self.update_args(store, old_rowid, args) {
            Ok(row) => row,
            Err(stop) => {
                return Err(stop);
            },
        };
        match self.check_update(store, old_rowid, &row) {
            Ok(()) => {},
            Err(stop) => {
                return Err(stop);
            },
        }
        match self.delete(store, old_rowid) {
            Ok(()) => {},
            Err(stop) => {
                return Err(stop);
            },
        }
        proof {
            old(self)@.lemma_room();
            assert(value::arg_views(row@)[0] == row@[0]@);
        }
        match self.insert(store, &row) {
            Ok(_) => Ok(()),
            Err(stop) => Err(stop),
        }
    }

    /// Drops the shadow tables.
    pub fn destroy(&mut self, store: &mut ShadowStore) -> (r: Result<(), Stop>)
        ensures
            (r, final(store)@) == old(self)@.destroy(old(store)@),
            final(self)@ == old(self)@,
            forall|t: TableView| old(store)@.wf(t) ==> #[trigger] final(store)@.wf(t),
    {
        if !store.connected {
            return Ok(());
        }
        let mut ws: Vec<Write> = Vec::new();
        ws.push(Write::DropNodeTable);
        ws.push(Write::DropRowidTable);
        ws.push(Write::DropParentTable);
        proof {
            let views = seq![
                WriteView::DropNodeTable,
                WriteView::DropRowidTable,
                WriteView::DropParentTable,
            ];
            assert(store::write_views(ws@) =~= views);
            reveal_with_fuel(StoreView::issue_all, 4);
            assert(views.drop_first()[0] == views[1]);
            assert(views.drop_first().drop_first()[0] == views[2]);
        }
        store.issue_all(ws)
    }

    pub fn begin(&mut self) -> (r: Result<(), ResultCode>)
        ensures
            r is Ok,
            final(self)@ == old(self)@,
    {
        Ok(())
    }

    pub fn commit(&mut self) -> (r: Result<(), ResultCode>)
        ensures
            r is Ok,
            final(self)@ == old(self)@,
    {
        Ok(())
    }

    pub fn rollback(&mut self) -> (r: Result<(), ResultCode>)
        ensures
            r is Ok,
            final(self)@ == old(self)@,
    {
        Ok(())
    }
}

} // verus!
