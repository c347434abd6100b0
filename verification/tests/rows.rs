use limbo_rtree::coord::{Area, Coord};
use limbo_rtree::cursor::{ColumnValue, RtreeCursor};
use limbo_rtree::module::RtreeModule;
use limbo_rtree::node::{RtreeCell, RtreeNode};
use limbo_rtree::plan::{ConstraintInfo, ConstraintOp};
use limbo_rtree::store::{
    AuxRow, Division, NodeRow, NumberRow, Rating, Request, Score, ShadowStore, Stop, Write,
};
use limbo_rtree::table::RtreeTable;
use limbo_rtree::value::{Arg, ResultCode, Value};
use std::collections::HashMap;

/// The shadow tables of one table, in memory.
#[derive(Default)]
struct Db {
    nodes: HashMap<i64, Vec<u8>>,
    rows: HashMap<i64, (i64, Vec<Value>)>,
    parents: HashMap<i64, i64>,
    writes: Vec<Write>,
    /// The number of the write that fails.
    fail_at: Option<usize>,
}

fn box_area(coords: &[Coord; 10], n_dim2: usize) -> Area {
    let mut area = 1.0f64;
    for d in 0..n_dim2 / 2 {
        let low = f32::from_bits(coords[2 * d].bits);
        let high = f32::from_bits(coords[2 * d + 1].bits);
        let size = (high - low) as f64;
        if size > 0.0 {
            area *= size;
        }
    }
    Area { bits: area.to_bits() }
}

fn rate(divisions: &[Division], n_dim2: usize) -> Rating {
    let side = |coords: &[Coord; 10], d: usize| {
        (f32::from_bits(coords[2 * d].bits) as f64, f32::from_bits(coords[2 * d + 1].bits) as f64)
    };
    let mut margin = 0.0;
    let mut scores = Vec::new();
    for division in divisions {
        let (mut left_area, mut right_area, mut overlap) = (1.0, 1.0, 1.0);
        for d in 0..n_dim2 / 2 {
            let l = side(&division.left, d);
            let r = side(&division.right, d);
            margin += (l.1 - l.0) + (r.1 - r.0);
            left_area *= l.1 - l.0;
            right_area *= r.1 - r.0;
            overlap *= (l.1.min(r.1) - l.0.max(r.0)).max(0.0);
        }
        let area: f64 = left_area + right_area;
        scores.push(Score {
            overlap: Area { bits: f64::to_bits(overlap) },
            area: Area { bits: area.to_bits() },
        });
    }
    Rating { margin: Area { bits: f64::to_bits(margin) }, scores }
}

impl Db {
    fn write(&mut self, w: &Write) -> bool {
        self.writes.push(w.clone());
        if self.fail_at == Some(self.writes.len()) {
            return false;
        }
        match w.clone() {
            Write::CreateNodeTable | Write::CreateRowidTable | Write::CreateParentTable => {}
            Write::DropNodeTable => self.nodes.clear(),
            Write::DropRowidTable => self.rows.clear(),
            Write::DropParentTable => self.parents.clear(),
            Write::Node { nodeno, data } => {
                self.nodes.insert(nodeno, data);
            }
            Write::Rowid { rowid, nodeno, aux } => {
                self.rows.insert(rowid, (nodeno, aux));
            }
            Write::MoveRow { rowid, nodeno } => {
                if let Some(row) = self.rows.get_mut(&rowid) {
                    row.0 = nodeno;
                }
            }
            Write::Parent { nodeno, parentnode } => {
                self.parents.insert(nodeno, parentnode);
            }
            Write::DeleteNode { nodeno } => {
                self.nodes.remove(&nodeno);
            }
            Write::DeleteRowid { rowid } => {
                self.rows.remove(&rowid);
            }
            Write::DeleteParent { nodeno } => {
                self.parents.remove(&nodeno);
            }
        }
        true
    }

    /// Finds out what an operation waits for and tells it to the store.
    fn answer(&mut self, table: &RtreeTable, store: &mut ShadowStore, request: Request) {
        match request {
            Request::Node(n) => {
                let row = match self.nodes.get(&n) {
                    Some(data) => NodeRow::Blob(data.clone()),
                    None => NodeRow::Missing,
                };
                assert!(store.learn_node(table, n, row));
            }
            Request::Parent(n) => {
                let row = match self.parents.get(&n) {
                    Some(p) => NumberRow::Number(*p),
                    None => NumberRow::Missing,
                };
                store.learn_parent(n, row);
            }
            Request::RowidNode(r) => {
                let row = match self.rows.get(&r) {
                    Some((n, _)) => NumberRow::Number(*n),
                    None => NumberRow::Missing,
                };
                store.learn_rowid(r, row);
            }
            Request::RowidAux(r) => {
                let row = match self.rows.get(&r) {
                    Some((_, aux)) => AuxRow::Values(aux.clone()),
                    None => AuxRow::Missing,
                };
                store.learn_aux(r, row);
            }
            Request::Area(coords) => {
                store.learn_area(coords, box_area(&coords, table.n_dim2));
            }
            Request::Rating(divisions) => {
                store.learn_rating(rate(&divisions, table.n_dim2));
            }
            Request::Write(w) => {
                let ok = self.write(&w);
                store.learn_ack(ok);
            }
        }
    }
}

/// Runs an operation on a table to its end.
fn run<T>(
    db: &mut Db,
    table: &mut RtreeTable,
    op: &dyn Fn(&mut RtreeTable, &mut ShadowStore) -> Result<T, Stop>,
) -> Result<T, ResultCode> {
    let mut known = ShadowStore::new();
    loop {
        let mut t = table.clone();
        let mut s = known.clone();
        match op(&mut t, &mut s) {
            Err(Stop::Wait) => db.answer(table, &mut known, s.pending.unwrap()),
            Err(Stop::Code(code)) => {
                *table = t;
                return Err(code);
            }
            Ok(v) => {
                *table = t;
                return Ok(v);
            }
        }
    }
}

/// Runs an operation on a cursor to its end.
fn run_cursor(
    db: &mut Db,
    table: &RtreeTable,
    cursor: &mut RtreeCursor,
    op: &dyn Fn(&mut RtreeCursor, &mut ShadowStore) -> Result<ResultCode, Stop>,
) -> ResultCode {
    let mut known = ShadowStore::new();
    loop {
        let mut c = cursor.clone();
        let mut s = known.clone();
        match op(&mut c, &mut s) {
            Err(Stop::Wait) => db.answer(table, &mut known, s.pending.unwrap()),
            Err(Stop::Code(code)) => return code,
            Ok(code) => {
                *cursor = c;
                return code;
            }
        }
    }
}

fn new_table(args: Vec<&str>) -> RtreeTable {
    let args: Vec<Option<String>> = args.iter().map(|s| Some(s.to_string())).collect();
    RtreeModule::create(&args).unwrap().1
}

fn line() -> RtreeTable {
    new_table(vec!["rtree", "main", "t", "id", "a", "b"])
}

fn labelled() -> RtreeTable {
    new_table(vec!["rtree", "main", "t", "id", "a", "b", "+label"])
}

fn whole(i: i64) -> Arg {
    Arg {
        integer: Some(i),
        real: Some(Coord { bits: (i as f32).to_bits() }),
        value: Value::Integer(i),
    }
}

fn num(f: f32) -> Arg {
    Arg {
        integer: None,
        real: Some(Coord { bits: f.to_bits() }),
        value: Value::Float((f as f64).to_bits()),
    }
}

fn null() -> Arg {
    Arg { integer: None, real: None, value: Value::Null }
}

fn text(s: &str) -> Arg {
    Arg { integer: None, real: None, value: Value::Text(s.to_string()) }
}

fn insert(db: &mut Db, t: &mut RtreeTable, args: Vec<Arg>) -> Result<i64, ResultCode> {
    run(db, t, &|t, s| t.insert(s, &args))
}

fn delete(db: &mut Db, t: &mut RtreeTable, rowid: i64) -> Result<(), ResultCode> {
    run(db, t, &|t, s| t.delete(s, rowid))
}

fn update(db: &mut Db, t: &mut RtreeTable, rowid: i64, args: Vec<Arg>) -> Result<(), ResultCode> {
    run(db, t, &|t, s| t.update(s, rowid, &args))
}

fn lookup(db: &mut Db, t: &RtreeTable, rowid: i64) -> RtreeCursor {
    let mut c = t.open().unwrap();
    let code = run_cursor(db, t, &mut c, &|c, s| {
        c.filter(s, &vec![whole(rowid)], Some(("rowid_lookup", 1)))
    });
    assert_eq!(code, ResultCode::OK);
    c
}

fn column_float(c: &RtreeCursor, i: u32) -> f32 {
    match c.column(i).unwrap() {
        ColumnValue::Coordinate(c) => f32::from_bits(c.bits),
        ColumnValue::Plain(_) => panic!("no coordinate"),
    }
}

fn column_text(c: &RtreeCursor, i: u32) -> Option<String> {
    match c.column(i).unwrap() {
        ColumnValue::Plain(Value::Text(t)) => Some(t),
        ColumnValue::Plain(Value::Null) => None,
        _ => panic!("no text"),
    }
}

/// The cells of a stored page of a table with one dimension.
fn page(db: &Db, nodeno: i64) -> Vec<RtreeCell> {
    let node =
        RtreeNode { node_no: nodeno, depth: 0, data: db.nodes[&nodeno].clone(), is_dirty: false };
    (0..node.cell_count()).map(|i| node.get_cell(2, 16, i)).collect()
}

fn depth(db: &Db) -> usize {
    (db.nodes[&1][0] as usize) * 256 + db.nodes[&1][1] as usize
}

#[test]
fn an_inserted_row_is_found_by_its_row_id() {
    let mut db = Db::default();
    let mut t = labelled();
    assert_eq!(insert(&mut db, &mut t, vec![whole(5), num(1.5), num(2.5), text("five")]), Ok(5));
    assert_eq!(insert(&mut db, &mut t, vec![whole(9), num(-3.0), num(0.0), null()]), Ok(9));
    let c = lookup(&mut db, &t, 5);
    assert!(!c.eof());
    assert_eq!(c.rowid(), 5);
    assert!(matches!(c.column(0), Ok(ColumnValue::Plain(Value::Integer(5)))));
    assert_eq!(column_float(&c, 1), 1.5);
    assert_eq!(column_float(&c, 2), 2.5);
    assert_eq!(column_text(&c, 3), Some("five".to_string()));
    assert_eq!(column_text(&c, 4), None);
    let c = lookup(&mut db, &t, 9);
    assert_eq!(column_float(&c, 1), -3.0);
    assert_eq!(column_text(&c, 3), None);
    assert!(lookup(&mut db, &t, 6).eof());
    assert_eq!(c.close(), ResultCode::OK);
}

#[test]
fn the_first_insertion_creates_the_shadow_tables() {
    let mut db = Db::default();
    let mut t = line();
    assert_eq!(t.node_count, 0);
    insert(&mut db, &mut t, vec![whole(1), num(0.0), num(1.0)]).unwrap();
    assert_eq!(t.node_count, 1);
    let kinds: Vec<&str> = db
        .writes
        .iter()
        .map(|w| match w {
            Write::CreateNodeTable => "create node",
            Write::CreateRowidTable => "create rowid",
            Write::CreateParentTable => "create parent",
            Write::Node { .. } => "node",
            Write::Rowid { .. } => "rowid",
            _ => "other",
        })
        .collect();
    assert_eq!(kinds, vec!["create node", "create rowid", "create parent", "node", "node", "rowid"]);
    insert(&mut db, &mut t, vec![whole(2), num(0.0), num(1.0)]).unwrap();
    assert_eq!(db.writes.len(), 8);
}

#[test]
fn a_null_row_id_is_assigned() {
    let mut db = Db::default();
    let mut t = line();
    assert_eq!(insert(&mut db, &mut t, vec![null(), num(0.0), num(1.0)]), Ok(1));
    assert_eq!(insert(&mut db, &mut t, vec![whole(40), num(0.0), num(1.0)]), Ok(40));
    assert_eq!(insert(&mut db, &mut t, vec![whole(7), num(0.0), num(1.0)]), Ok(7));
    assert_eq!(insert(&mut db, &mut t, vec![null(), num(0.0), num(1.0)]), Ok(41));
    assert_eq!(t.row_count, 41);
}

#[test]
fn rows_that_are_refused() {
    let mut db = Db::default();
    let mut t = labelled();
    assert_eq!(
        insert(&mut db, &mut t, vec![whole(1), num(2.0), num(1.0), null()]),
        Err(ResultCode::ConstraintViolation)
    );
    assert_eq!(
        insert(&mut db, &mut t, vec![whole(1), num(f32::NAN), num(1.0), null()]),
        Err(ResultCode::ConstraintViolation)
    );
    assert_eq!(
        insert(&mut db, &mut t, vec![whole(1), num(1.0), num(1.0)]),
        Err(ResultCode::InvalidArgs)
    );
    assert!(db.writes.is_empty());
    assert_eq!(insert(&mut db, &mut t, vec![whole(1), num(1.0), num(1.0), null()]), Ok(1));
    let before = db.writes.len();
    assert_eq!(
        insert(&mut db, &mut t, vec![whole(1), num(5.0), num(6.0), null()]),
        Err(ResultCode::ConstraintViolation)
    );
    assert_eq!(db.writes.len(), before);
    let mut detached = ShadowStore::detached();
    assert_eq!(
        t.insert(&mut detached, &vec![whole(2), num(1.0), num(1.0), null()]),
        Err(Stop::Code(ResultCode::InvalidArgs))
    );
    assert_eq!(t.delete(&mut detached, 2), Err(Stop::Code(ResultCode::InvalidArgs)));
}

#[test]
fn a_coordinate_that_is_no_number_is_zero() {
    let mut db = Db::default();
    let mut t = line();
    insert(&mut db, &mut t, vec![whole(3), text("x"), num(1.0)]).unwrap();
    assert_eq!(column_float(&lookup(&mut db, &t, 3), 1), 0.0);
}

#[test]
fn a_write_that_fails_ends_the_insertion() {
    for at in 1..=6 {
        let mut db = Db { fail_at: Some(at), ..Db::default() };
        let mut t = line();
        assert_eq!(
            insert(&mut db, &mut t, vec![whole(1), num(0.0), num(1.0)]),
            Err(ResultCode::Error)
        );
        assert_eq!(db.writes.len(), at);
        assert!(db.rows.is_empty());
    }
}

#[test]
fn a_full_leaf_is_split_below_itself() {
    let mut db = Db::default();
    let mut t = line();
    for i in 1..=251 {
        insert(&mut db, &mut t, vec![whole(i), num(i as f32), num(i as f32 + 1.0)]).unwrap();
    }
    assert_eq!(t.node_count, 1);
    assert_eq!(page(&db, 1).len(), 251);
    insert(&mut db, &mut t, vec![whole(252), num(252.0), num(253.0)]).unwrap();
    assert_eq!(t.node_count, 3);
    assert_eq!(depth(&db), 1);
    let root = page(&db, 1);
    assert_eq!(root.iter().map(|c| c.rowid).collect::<Vec<_>>(), vec![2, 3]);
    assert_eq!(f32::from_bits(root[0].coords[0].bits), 1.0);
    assert_eq!(f32::from_bits(root[0].coords[1].bits), 84.0);
    assert_eq!(f32::from_bits(root[1].coords[0].bits), 84.0);
    assert_eq!(f32::from_bits(root[1].coords[1].bits), 253.0);
    let mut ids: Vec<i64> = page(&db, 2).iter().map(|c| c.rowid).collect();
    ids.extend(page(&db, 3).iter().map(|c| c.rowid));
    assert_eq!(ids, (1..=252).collect::<Vec<i64>>());
    assert_eq!(db.parents[&2], 1);
    assert_eq!(db.parents[&3], 1);
    for i in 1..=252 {
        assert_eq!(db.rows[&i].0, if i <= 83 { 2 } else { 3 });
        let c = lookup(&mut db, &t, i);
        assert!(!c.eof());
        assert_eq!(column_float(&c, 1), i as f32);
    }
}

#[test]
fn a_split_leaves_a_gap_between_the_boxes() {
    let mut db = Db::default();
    let mut t = new_table(vec!["rtree", "main", "t", "id", "a", "b", "c", "d"]);
    // Two groups of rows, apart along the second axis, inserted by turns.
    for i in 1..=168 {
        let x = (i * 7 % 50) as f32;
        let y = if i % 2 == 0 { 0.0 } else { 1000.0 };
        insert(&mut db, &mut t, vec![whole(i), num(x), num(x + 1.0), num(y), num(y + 1.0)])
            .unwrap();
    }
    assert_eq!(t.node_count, 3);
    for i in 1..=168 {
        assert_eq!(db.rows[&i].0, if i % 2 == 0 { 2 } else { 3 });
    }
}

#[test]
fn boxes_above_a_row_are_widened() {
    let mut db = Db::default();
    let mut t = line();
    let mut root = RtreeNode::new(1, 2, 4032);
    root.set_cell(2, 16, 0, &boxed(2, 0.0, 1.0));
    root.set_cell(2, 16, 1, &boxed(3, 10.0, 20.0));
    root.set_cell_count(2);
    let mut small = RtreeNode::new(2, 0, 4032);
    small.set_cell(2, 16, 0, &boxed(100, 0.0, 1.0));
    small.set_cell_count(1);
    db.nodes.insert(1, root.data);
    db.nodes.insert(2, small.data);
    db.nodes.insert(3, RtreeNode::new(3, 0, 4032).data);
    db.parents.insert(2, 1);
    db.parents.insert(3, 1);
    t.node_count = 3;
    insert(&mut db, &mut t, vec![whole(200), num(-5.0), num(0.5)]).unwrap();
    assert_eq!(db.rows[&200].0, 2);
    let root = page(&db, 1);
    assert_eq!(f32::from_bits(root[0].coords[0].bits), -5.0);
    assert_eq!(f32::from_bits(root[0].coords[1].bits), 1.0);
    assert_eq!(f32::from_bits(root[1].coords[0].bits), 10.0);
}

fn boxed(rowid: i64, low: f32, high: f32) -> RtreeCell {
    let mut c = RtreeCell::new(rowid);
    c.coords[0] = Coord { bits: low.to_bits() };
    c.coords[1] = Coord { bits: high.to_bits() };
    c
}

#[test]
fn a_deleted_row_is_gone() {
    let mut db = Db::default();
    let mut t = labelled();
    for i in 1..=4 {
        insert(&mut db, &mut t, vec![whole(i), num(i as f32), num(i as f32), text("r")]).unwrap();
    }
    delete(&mut db, &mut t, 2).unwrap();
    assert!(lookup(&mut db, &t, 2).eof());
    for i in [1, 3, 4] {
        let c = lookup(&mut db, &t, i);
        assert_eq!(column_float(&c, 1), i as f32);
        assert_eq!(column_text(&c, 3), Some("r".to_string()));
    }
    delete(&mut db, &mut t, 77).unwrap();
    for i in [1, 3, 4] {
        delete(&mut db, &mut t, i).unwrap();
    }
    assert_eq!(page(&db, 1).len(), 0);
    assert!(db.rows.is_empty());
    assert_eq!(insert(&mut db, &mut t, vec![whole(2), num(0.0), num(1.0), null()]), Ok(2));
}

#[test]
fn a_leaf_with_too_few_cells_is_detached() {
    let mut db = Db::default();
    let mut t = labelled();
    let mut root = RtreeNode::new(1, 1, 4032);
    root.set_cell(2, 16, 0, &boxed(2, 0.0, 1.0));
    root.set_cell(2, 16, 1, &boxed(3, 5.0, 9.0));
    root.set_cell_count(2);
    let mut low = RtreeNode::new(2, 0, 4032);
    low.set_cell(2, 16, 0, &boxed(100, 0.0, 1.0));
    low.set_cell(2, 16, 1, &boxed(101, 0.5, 1.0));
    low.set_cell_count(2);
    let mut high = RtreeNode::new(3, 0, 4032);
    high.set_cell(2, 16, 0, &boxed(102, 5.0, 9.0));
    high.set_cell_count(1);
    db.nodes.insert(1, root.data);
    db.nodes.insert(2, low.data);
    db.nodes.insert(3, high.data);
    db.parents.insert(2, 1);
    db.parents.insert(3, 1);
    db.rows.insert(100, (2, vec![Value::Text("a".to_string())]));
    db.rows.insert(101, (2, vec![Value::Text("b".to_string())]));
    db.rows.insert(102, (3, vec![Value::Text("c".to_string())]));
    t.node_count = 3;
    delete(&mut db, &mut t, 100).unwrap();
    assert!(!db.nodes.contains_key(&2));
    assert!(!db.parents.contains_key(&2));
    assert!(!db.rows.contains_key(&100));
    let c = lookup(&mut db, &t, 101);
    assert!(!c.eof());
    assert_eq!(column_float(&c, 1), 0.5);
    assert_eq!(column_text(&c, 3), Some("b".to_string()));
    assert_eq!(column_text(&lookup(&mut db, &t, 102), 3), Some("c".to_string()));
}

#[test]
fn a_root_with_a_single_child_is_collapsed() {
    let mut db = Db::default();
    let mut t = line();
    let mut root = RtreeNode::new(1, 2, 4032);
    root.set_cell(2, 16, 0, &boxed(2, 0.0, 9.0));
    root.set_cell_count(1);
    let mut leaf = RtreeNode::new(2, 0, 4032);
    for i in 0..90 {
        leaf.set_cell(2, 16, i, &boxed(100 + i as i64, i as f32, i as f32 + 1.0));
        db.rows.insert(100 + i as i64, (2, vec![]));
    }
    leaf.set_cell_count(90);
    db.nodes.insert(1, root.data);
    db.nodes.insert(2, leaf.data);
    db.parents.insert(2, 1);
    t.node_count = 2;
    delete(&mut db, &mut t, 100).unwrap();
    assert_eq!(depth(&db), 0);
    assert!(!db.nodes.contains_key(&2));
    assert_eq!(page(&db, 1).len(), 89);
    assert_eq!(db.rows[&150].0, 1);
    assert_eq!(t.depth, 0);
    assert_eq!(column_float(&lookup(&mut db, &t, 150), 1), 50.0);
}

#[test]
fn deleting_tightens_the_boxes_above() {
    let mut db = Db::default();
    let mut t = line();
    let mut root = RtreeNode::new(1, 1, 4032);
    root.set_cell(2, 16, 0, &boxed(2, 0.0, 100.0));
    root.set_cell(2, 16, 1, &boxed(3, 0.0, 1.0));
    root.set_cell_count(2);
    let mut leaf = RtreeNode::new(2, 0, 4032);
    for i in 0..90 {
        leaf.set_cell(2, 16, i, &boxed(100 + i as i64, i as f32, i as f32 + 1.0));
        db.rows.insert(100 + i as i64, (2, vec![]));
    }
    leaf.set_cell_count(90);
    db.nodes.insert(1, root.data);
    db.nodes.insert(2, leaf.data);
    db.parents.insert(2, 1);
    t.node_count = 3;
    delete(&mut db, &mut t, 100).unwrap();
    let root = page(&db, 1);
    assert_eq!(f32::from_bits(root[0].coords[0].bits), 1.0);
    assert_eq!(f32::from_bits(root[0].coords[1].bits), 90.0);
    assert_eq!(root[0].rowid, 2);
}

#[test]
fn an_update_replaces_the_row() {
    let mut db = Db::default();
    let mut t = labelled();
    insert(&mut db, &mut t, vec![whole(1), num(1.0), num(2.0), text("one")]).unwrap();
    insert(&mut db, &mut t, vec![whole(2), num(3.0), num(4.0), text("two")]).unwrap();
    update(&mut db, &mut t, 1, vec![whole(1), num(8.0), num(9.0), text("uno")]).unwrap();
    let c = lookup(&mut db, &t, 1);
    assert_eq!(column_float(&c, 1), 8.0);
    assert_eq!(column_text(&c, 3), Some("uno".to_string()));
    update(&mut db, &mut t, 2, vec![whole(20), num(5.0), num(6.0), text("twenty")]).unwrap();
    assert!(lookup(&mut db, &t, 2).eof());
    assert_eq!(column_float(&lookup(&mut db, &t, 20), 2), 6.0);
    assert_eq!(
        update(&mut db, &mut t, 1, vec![whole(1), num(1.0)]),
        Err(ResultCode::InvalidArgs)
    );
}

#[test]
fn an_update_keeps_what_is_null() {
    let mut db = Db::default();
    let mut t = labelled();
    insert(&mut db, &mut t, vec![whole(1), num(1.0), num(2.0), text("one")]).unwrap();
    update(&mut db, &mut t, 1, vec![null(), null(), num(7.0), null()]).unwrap();
    let c = lookup(&mut db, &t, 1);
    assert_eq!(column_float(&c, 1), 1.0);
    assert_eq!(column_float(&c, 2), 7.0);
    assert_eq!(column_text(&c, 3), Some("one".to_string()));
}

#[test]
fn dropping_a_table_drops_its_shadow_tables() {
    let mut db = Db::default();
    let mut t = line();
    insert(&mut db, &mut t, vec![whole(1), num(1.0), num(2.0)]).unwrap();
    run(&mut db, &mut t, &|t, s| t.destroy(s)).unwrap();
    assert!(db.nodes.is_empty() && db.rows.is_empty() && db.parents.is_empty());
    let last: Vec<bool> = db.writes[db.writes.len() - 3..]
        .iter()
        .map(|w| {
            matches!(w, Write::DropNodeTable | Write::DropRowidTable | Write::DropParentTable)
        })
        .collect();
    assert_eq!(last, vec![true, true, true]);
    let mut none = ShadowStore::detached();
    assert_eq!(t.destroy(&mut none), Ok(()));
    assert_eq!(t.begin(), Ok(()));
    assert_eq!(t.commit(), Ok(()));
    assert_eq!(t.rollback(), Ok(()));
}

#[test]
fn a_query_goes_through_the_rows_that_match() {
    let mut db = Db::default();
    let mut t = labelled();
    for i in [3, 1, 8, 5] {
        insert(&mut db, &mut t, vec![whole(i), num(i as f32), num(i as f32 + 1.0), text("r")])
            .unwrap();
    }
    let mut c = t.open().unwrap();
    let code =
        run_cursor(&mut db, &t, &mut c, &|c, s| c.filter(s, &vec![num(2.0)], Some(("E0", 2))));
    assert_eq!(code, ResultCode::OK);
    let mut found = Vec::new();
    while !c.eof() {
        found.push(c.rowid());
        assert_eq!(column_float(&c, 1), c.rowid() as f32);
        assert_eq!(column_text(&c, 3), Some("r".to_string()));
        let code = run_cursor(&mut db, &t, &mut c, &|c, s| c.next(s));
        assert_eq!(code, if c.eof() { ResultCode::EOF } else { ResultCode::OK });
    }
    assert_eq!(found, vec![3, 8, 5]);
}

/// The row ids that a query gives, in the order in which it gives them.
fn query(db: &mut Db, t: &RtreeTable, args: Vec<Arg>, idx: &str) -> Vec<i64> {
    let mut c = t.open().unwrap();
    let code = run_cursor(db, t, &mut c, &|c, s| c.filter(s, &args, Some((idx, 2))));
    assert_eq!(code, ResultCode::OK);
    let mut found = Vec::new();
    while !c.eof() {
        found.push(c.rowid());
        let code = run_cursor(db, t, &mut c, &|c, s| c.next(s));
        assert_eq!(code, if c.eof() { ResultCode::EOF } else { ResultCode::OK });
    }
    found
}

#[test]
fn a_query_gives_every_matching_row_once() {
    let mut db = Db::default();
    let mut t = line();
    // Row ids and places are in no order with each other.
    let low = |i: i64| ((i * 37) % 300) as f32;
    for i in 1..=299 {
        insert(&mut db, &mut t, vec![whole(i), num(low(i)), num(low(i) + 2.0)]).unwrap();
    }
    assert!(t.node_count >= 3);
    let meets = |op: u8, x: f32, v: f32| match op {
        b'A' => x == v,
        b'B' => x <= v,
        b'C' => x < v,
        b'D' => x >= v,
        _ => x > v,
    };
    for op in ["A", "B", "C", "D", "E"] {
        for coordinate in [0, 1] {
            for v in [-5.0, 0.0, 37.0, 150.0, 260.0, 500.0] {
                let idx = format!("{op}{coordinate}");
                let mut found = query(&mut db, &t, vec![num(v)], &idx);
                found.sort();
                let expected: Vec<i64> = (1..=299)
                    .filter(|i| {
                        meets(op.as_bytes()[0], low(*i) + 2.0 * coordinate as f32, v)
                    })
                    .collect();
                assert_eq!(found, expected);
            }
        }
    }
    let mut both = query(&mut db, &t, vec![num(100.0), num(120.0)], "D0B1");
    both.sort();
    let expected: Vec<i64> =
        (1..=299).filter(|i| low(*i) >= 100.0 && low(*i) + 2.0 <= 120.0).collect();
    assert_eq!(expected.len(), 19);
    assert_eq!(both, expected);
}

#[test]
fn a_query_after_deletions_gives_the_rows_that_are_left() {
    let mut db = Db::default();
    let mut t = line();
    for i in 1..=260 {
        insert(&mut db, &mut t, vec![whole(i), num(i as f32), num(i as f32 + 1.0)]).unwrap();
    }
    assert_eq!(depth(&db), 1);
    for i in 1..=60 {
        delete(&mut db, &mut t, 2 * i).unwrap();
    }
    let left: Vec<i64> = (1..=260).filter(|i| i % 2 == 1 || *i > 120).collect();
    let mut found = query(&mut db, &t, vec![num(0.0)], "E0");
    found.sort();
    assert_eq!(found, left);
    for i in 1..=260 {
        let c = lookup(&mut db, &t, i);
        assert_eq!(c.eof(), !left.contains(&i));
        if !c.eof() {
            assert_eq!(column_float(&c, 1), i as f32);
        }
    }
}

#[test]
fn a_lookup_goes_on_to_no_other_row() {
    let mut db = Db::default();
    let mut t = line();
    insert(&mut db, &mut t, vec![whole(4), num(1.0), num(2.0)]).unwrap();
    let mut c = lookup(&mut db, &t, 4);
    assert_eq!(run_cursor(&mut db, &t, &mut c, &|c, s| c.next(s)), ResultCode::EOF);
    assert!(c.eof());
}

#[test]
fn a_query_of_a_new_table_finds_nothing() {
    let mut db = Db::default();
    let t = line();
    assert!(query(&mut db, &t, vec![num(0.0)], "E0").is_empty());
}

#[test]
fn an_update_that_is_refused_changes_nothing() {
    let mut db = Db::default();
    let mut t = labelled();
    insert(&mut db, &mut t, vec![whole(1), num(1.0), num(2.0), text("one")]).unwrap();
    insert(&mut db, &mut t, vec![whole(2), num(3.0), num(4.0), text("two")]).unwrap();
    let before = db.writes.len();
    for row in [
        vec![whole(1), num(9.0), num(8.0), text("x")],
        vec![whole(1), num(f32::NAN), num(8.0), text("x")],
        vec![whole(2), num(5.0), num(6.0), text("x")],
        vec![whole(1), num(9.0), null(), null()],
    ] {
        assert_eq!(update(&mut db, &mut t, 1, row), Err(ResultCode::ConstraintViolation));
        assert_eq!(db.writes.len(), before);
        assert_eq!((t.node_count, t.row_count), (1, 2));
        let c = lookup(&mut db, &t, 1);
        assert_eq!(column_float(&c, 1), 1.0);
        assert_eq!(column_text(&c, 3), Some("one".to_string()));
    }
}

#[test]
fn deleting_an_inserted_row_gives_the_old_root_back() {
    let mut db = Db::default();
    let mut t = line();
    for i in [4, 2, 9] {
        insert(&mut db, &mut t, vec![whole(i), num(i as f32), num(i as f32)]).unwrap();
    }
    let before: Vec<i64> = page(&db, 1).iter().map(|c| c.rowid).collect();
    insert(&mut db, &mut t, vec![whole(5), num(7.0), num(8.0)]).unwrap();
    delete(&mut db, &mut t, 5).unwrap();
    let after: Vec<i64> = page(&db, 1).iter().map(|c| c.rowid).collect();
    assert_eq!(after, before);
    assert_eq!(after, vec![4, 2, 9]);
    assert!(!db.rows.contains_key(&5));
    assert_eq!(db.rows.len(), 3);
    assert_eq!(t.node_count, 1);
}

#[test]
fn a_query_without_constraints_gives_all_rows() {
    let mut db = Db::default();
    let mut t = line();
    for i in [4, 0, -3, 9] {
        insert(&mut db, &mut t, vec![whole(i), num(i as f32), num(i as f32)]).unwrap();
    }
    assert_eq!(query(&mut db, &t, vec![], "query"), vec![4, 0, -3, 9]);
    // An argument that is not a number leaves the coordinate free.
    assert_eq!(query(&mut db, &t, vec![text("x")], "E0"), vec![4, 0, -3, 9]);
    let mut c = t.open().unwrap();
    let code = run_cursor(&mut db, &t, &mut c, &|c, s| c.filter(s, &vec![], None));
    assert_eq!(code, ResultCode::OK);
    assert_eq!(c.rowid(), 4);
    let mut unfiltered = t.open().unwrap();
    let code = run_cursor(&mut db, &t, &mut unfiltered, &|c, s| c.next(s));
    assert_eq!(code, ResultCode::EOF);
    assert!(unfiltered.eof());
}

fn offer(column_index: u32, op: ConstraintOp) -> ConstraintInfo {
    ConstraintInfo { column_index, op, usable: true }
}

/// The row ids that a query gives which is planned for the given constraints.
fn planned(db: &mut Db, t: &RtreeTable, cs: Vec<(ConstraintInfo, Arg)>) -> Vec<i64> {
    let offers: Vec<ConstraintInfo> = cs.iter().map(|c| c.0).collect();
    let plan = RtreeTable::best_index(&offers).unwrap();
    let mut args: Vec<Option<Arg>> = vec![None; cs.len()];
    let mut n = 0;
    for (usage, (_, arg)) in plan.constraint_usages.iter().zip(cs) {
        if let Some(a) = usage.argv_index {
            assert!(args[a as usize - 1].is_none());
            args[a as usize - 1] = Some(arg);
            n += 1;
        }
    }
    let args: Vec<Arg> = args.into_iter().take(n).map(|a| a.unwrap()).collect();
    query(db, t, args, &plan.idx_str.unwrap())
}

#[test]
fn a_planned_query_gives_the_rows_that_meet_it() {
    let mut db = Db::default();
    let mut t = labelled();
    for (i, low) in [(7, 0.0), (1, 6.0), (2, 3.0), (3, 8.0)] {
        insert(&mut db, &mut t, vec![whole(i), num(low), num(low + 1.0), text("r")]).unwrap();
    }
    let id = |i: i64| (offer(0, ConstraintOp::Eq), whole(i));
    let above = |v: f32| (offer(1, ConstraintOp::Gt), num(v));
    assert_eq!(planned(&mut db, &t, vec![id(1), above(5.0)]), vec![1]);
    assert_eq!(planned(&mut db, &t, vec![above(5.0), id(1)]), vec![1]);
    assert!(planned(&mut db, &t, vec![id(2), above(5.0)]).is_empty());
    assert!(planned(&mut db, &t, vec![above(5.0), id(2)]).is_empty());
    assert!(planned(&mut db, &t, vec![id(5), above(5.0)]).is_empty());
    assert!(planned(&mut db, &t, vec![(offer(0, ConstraintOp::Eq), text("x"))]).is_empty());
    let below = (offer(2, ConstraintOp::Lt), num(8.0));
    assert_eq!(planned(&mut db, &t, vec![above(5.0), below.clone(), id(1)]), vec![1]);
    assert!(planned(&mut db, &t, vec![above(5.0), below.clone(), id(3)]).is_empty());
    assert_eq!(planned(&mut db, &t, vec![above(2.0), below]), vec![1, 2]);
    assert_eq!(planned(&mut db, &t, vec![above(2.0)]), vec![1, 2, 3]);
    assert_eq!(planned(&mut db, &t, vec![]), vec![7, 1, 2, 3]);
}

/// A tree in which every node above the only leaf has one child.
fn chain(db: &mut Db, t: &mut RtreeTable, leaf_no: i64, n_rows: i64) {
    for n in 1..leaf_no {
        let mut node = RtreeNode::new(n, 1, 4032);
        node.set_cell(2, 16, 0, &boxed(n + 1, 0.0, 1000.0));
        node.set_cell_count(1);
        db.nodes.insert(n, node.data);
        db.parents.insert(n + 1, n);
    }
    let mut leaf = RtreeNode::new(leaf_no, 0, 4032);
    for i in 0..n_rows {
        leaf.set_cell(2, 16, i as usize, &boxed(5000 + i, i as f32, i as f32 + 1.0));
        db.rows.insert(5000 + i, (leaf_no, vec![]));
    }
    leaf.set_cell_count(n_rows as usize);
    db.nodes.insert(leaf_no, leaf.data);
    t.node_count = leaf_no;
}

#[test]
fn a_tall_tree_takes_rows_and_gives_them_back() {
    let mut db = Db::default();
    let mut t = line();
    chain(&mut db, &mut t, 151, 83);
    assert_eq!(insert(&mut db, &mut t, vec![whole(9), num(-7.0), num(2000.0)]), Ok(9));
    assert_eq!(db.rows[&9].0, 151);
    let root = page(&db, 1);
    assert_eq!(f32::from_bits(root[0].coords[0].bits), -7.0);
    assert_eq!(f32::from_bits(root[0].coords[1].bits), 2000.0);
    assert_eq!(query(&mut db, &t, vec![num(-1.0)], "C0"), vec![9]);
}

#[test]
fn nodes_without_cells_are_detached_with_the_leaf() {
    let mut db = Db::default();
    let mut t = line();
    chain(&mut db, &mut t, 6, 83);
    delete(&mut db, &mut t, 5000).unwrap();
    assert_eq!(db.nodes.keys().copied().collect::<Vec<_>>(), vec![1]);
    assert!(db.parents.is_empty());
    assert_eq!(depth(&db), 0);
    assert_eq!(page(&db, 1).len(), 82);
    for i in 5001..5083 {
        assert_eq!(db.rows[&i].0, 1);
    }
}

#[test]
fn every_leaf_but_the_root_is_filled() {
    let mut db = Db::default();
    let mut t = line();
    let check = |db: &Db| {
        for (n, _) in &db.nodes {
            let cells = page(db, *n);
            let inner = *n == 1 && depth(db) > 0
                || !cells.is_empty() && db.parents.get(&cells[0].rowid) == Some(n);
            assert!(*n == 1 || inner || cells.len() >= 83);
        }
    };
    for i in 1..=300 {
        let low = ((i * 53) % 307) as f32;
        insert(&mut db, &mut t, vec![whole(1000 + i), num(low), num(low + 1.0)]).unwrap();
        check(&db);
    }
    for i in 1..=100 {
        delete(&mut db, &mut t, 1000 + 3 * i).unwrap();
        check(&db);
    }
    assert_eq!(db.rows.len(), 200);
}

#[test]
fn a_lookup_without_an_integer_finds_nothing() {
    let mut db = Db::default();
    let mut t = line();
    insert(&mut db, &mut t, vec![whole(1), num(1.0), num(2.0)]).unwrap();
    let mut c = t.open().unwrap();
    let code = run_cursor(&mut db, &t, &mut c, &|c, s| {
        c.filter(s, &vec![text("x")], Some(("rowid_lookup", 1)))
    });
    assert_eq!(code, ResultCode::OK);
    assert!(c.eof());
    let mut none = ShadowStore::detached();
    assert_eq!(c.filter(&mut none, &vec![whole(1)], Some(("rowid_lookup", 1))), Ok(ResultCode::OK));
    assert!(c.eof());
}

#[test]
fn a_read_that_fails_ends_with_an_error() {
    let mut t = line();
    t.node_count = 1;
    let mut store = ShadowStore::new();
    store.learn_rowid(4, NumberRow::Failed);
    assert_eq!(
        t.insert(&mut store, &vec![whole(4), num(0.0), num(1.0)]),
        Err(Stop::Code(ResultCode::Error))
    );
    let mut store = ShadowStore::new();
    store.learn_rowid(4, NumberRow::Number(2));
    assert!(store.learn_node(&t, 2, NodeRow::Failed));
    assert_eq!(t.delete(&mut store, 4), Err(Stop::Code(ResultCode::Error)));
    let l = labelled();
    let mut store = ShadowStore::new();
    store.learn_aux(4, AuxRow::Values(vec![]));
    assert!(matches!(
        l.read_rowid_aux_values(&mut store, 4),
        Err(Stop::Code(ResultCode::Corrupt))
    ));
    let mut store = ShadowStore::new();
    store.learn_aux(4, AuxRow::Missing);
    assert!(matches!(
        l.read_rowid_aux_values(&mut store, 4),
        Err(Stop::Code(ResultCode::NotFound))
    ));
}

#[test]
fn pages_that_no_table_has_are_not_learned() {
    let t = line();
    let mut store = ShadowStore::new();
    let mut crowded = RtreeNode::new(2, 0, 4032);
    crowded.set_cell_count(252);
    assert!(!store.learn_node(&t, 2, NodeRow::Blob(crowded.data)));
    assert!(!store.learn_node(&t, 1, NodeRow::Blob(vec![0])));
    assert!(store.learn_node(&t, 2, NodeRow::Blob(vec![0])));
    assert!(store.learn_node(&t, 1, NodeRow::Blob(vec![0, 3])));
    let root = t.load_root_node(&mut store).unwrap();
    assert_eq!(root.tree_depth(), 3);
    assert_eq!(root.data.len(), 4032);
}

#[test]
fn an_operation_that_waits_says_for_what() {
    let mut t = line();
    t.node_count = 1;
    let mut store = ShadowStore::new();
    assert_eq!(t.insert(&mut store, &vec![whole(4), num(0.0), num(1.0)]), Err(Stop::Wait));
    assert!(matches!(store.pending, Some(Request::RowidNode(4))));
}

#[test]
fn a_detached_leaf_without_a_parent_is_corrupt() {
    let mut db = Db::default();
    let mut t = line();
    let mut leaf = RtreeNode::new(5, 0, 4032);
    leaf.set_cell(2, 16, 0, &boxed(100, 0.0, 1.0));
    leaf.set_cell(2, 16, 1, &boxed(101, 0.0, 1.0));
    leaf.set_cell_count(2);
    db.nodes.insert(5, leaf.data);
    db.rows.insert(100, (5, vec![]));
    t.node_count = 5;
    assert_eq!(delete(&mut db, &mut t, 100), Err(ResultCode::Corrupt));
}

#[test]
fn a_full_inner_node_is_split_below_itself() {
    let mut db = Db::default();
    let mut t = line();
    let mut inner = RtreeNode::new(4, 0, 4032);
    for i in 0..251 {
        inner.set_cell(2, 16, i, &boxed(1000 + i as i64, i as f32, i as f32 + 1.0));
    }
    inner.set_cell_count(251);
    db.nodes.insert(4, inner.data);
    t.node_count = 10;
    let cell = boxed(1251, 251.0, 252.0);
    run(&mut db, &mut t, &|t, s| t.split_internal_node_and_promote(s, 4, &cell)).unwrap();
    assert_eq!(t.node_count, 12);
    let up: Vec<i64> = page(&db, 4).iter().map(|c| c.rowid).collect();
    assert_eq!(up, vec![11, 12]);
    assert_eq!(page(&db, 11).len(), 83);
    assert_eq!(page(&db, 12).len(), 169);
    assert_eq!(db.parents[&1000], 11);
    assert_eq!(db.parents[&1251], 12);
    assert_eq!(db.parents[&11], 4);
    let r = run(&mut db, &mut t, &|t, s| t.split_internal_node_and_promote(s, 77, &cell));
    assert_eq!(r, Err(ResultCode::Corrupt));
}

#[test]
fn row_ids_start_again_behind_the_highest() {
    let mut db = Db::default();
    let mut t = line();
    assert_eq!(
        insert(&mut db, &mut t, vec![whole(i64::MAX), num(0.0), num(1.0)]),
        Ok(i64::MAX)
    );
    assert_eq!(insert(&mut db, &mut t, vec![null(), num(0.0), num(1.0)]), Ok(i64::MIN));
    assert_eq!(t.row_count, i64::MIN);
}

#[test]
fn row_zero_comes_without_its_auxiliary_columns() {
    let mut db = Db::default();
    let mut t = labelled();
    insert(&mut db, &mut t, vec![whole(0), num(1.0), num(2.0), text("zero")]).unwrap();
    let c = lookup(&mut db, &t, 0);
    assert!(!c.eof());
    assert_eq!(column_float(&c, 2), 2.0);
    assert_eq!(column_text(&c, 3), None);
}

#[test]
fn other_rows_stay_found() {
    let mut db = Db::default();
    let mut t = labelled();
    for i in 1..=20 {
        insert(&mut db, &mut t, vec![whole(i), num(i as f32), num(i as f32), text("r")]).unwrap();
        for j in 1..=i {
            assert_eq!(column_float(&lookup(&mut db, &t, j), 1), j as f32);
        }
    }
    for i in 1..=20 {
        delete(&mut db, &mut t, i).unwrap();
        assert!(lookup(&mut db, &t, i).eof());
        for j in i + 1..=20 {
            assert_eq!(column_float(&lookup(&mut db, &t, j), 1), j as f32);
        }
    }
}

#[test]
fn rows_in_the_root_take_a_fixed_number_of_changes() {
    let mut db = Db::default();
    let mut t = line();
    assert_eq!(insert(&mut db, &mut t, vec![whole(5), num(0.0), num(1.0)]), Ok(5));
    assert_eq!(db.writes.len(), 6);
    assert_eq!(insert(&mut db, &mut t, vec![whole(6), num(2.0), num(3.0)]), Ok(6));
    assert_eq!(db.writes.len(), 8);
    assert_eq!(delete(&mut db, &mut t, 5), Ok(()));
    assert_eq!(db.writes.len(), 10);
    // The last row leaves an emptied root behind.
    assert_eq!(delete(&mut db, &mut t, 6), Ok(()));
    assert_eq!(db.writes.len(), 13);
}
