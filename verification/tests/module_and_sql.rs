use limbo_rtree::coord::Coord;
use limbo_rtree::module::RtreeModule;
use limbo_rtree::plan::{
    constraint_op_to_rtree_op, ConstraintInfo, ConstraintOp, ConstraintUsage,
};
use limbo_rtree::sql::{change_sql, change_values, query_sql};
use limbo_rtree::store::{Request, ShadowStore, Write};
use limbo_rtree::table::RtreeTable;
use limbo_rtree::text::{is_white_space, quote_sql_ident, word_from};
use limbo_rtree::value::{Arg, ResultCode, Value};

fn texts(args: &[&str]) -> Vec<Option<String>> {
    args.iter().map(|s| Some(s.to_string())).collect()
}

#[test]
fn schema_uses_the_names_of_the_columns() {
    let args = texts(&["rtree", "main", "places", "id", "xmin", "xmax", "+label TEXT", "+no\"te"]);
    let (schema, table) = RtreeModule::create(&args).unwrap();
    assert_eq!(
        schema,
        "CREATE TABLE x (\"id\" INTEGER PRIMARY KEY, \"xmin\" REAL, \"xmax\" REAL, \
         \"label\" TEXT, \"no\"\"te\" TEXT)"
    );
    assert_eq!(table.table_name, "places");
    assert_eq!(table.aux_columns, vec!["label".to_string(), "no\"te".to_string()]);
    assert_eq!(table.n_bytes_per_cell, 16);
    assert_eq!(table.node_size, 4032);
    assert_eq!(table.node_count, 0);
    assert_eq!(table.row_count, 0);
}

#[test]
fn column_arguments_that_are_refused() {
    let refused = |args: &[&str]| match RtreeModule::create(&texts(args)) {
        Err(code) => code == ResultCode::InvalidArgs,
        Ok(_) => false,
    };
    assert!(refused(&["rtree", "main", "t", "id"]));
    assert!(refused(&["rtree", "main", "t", "id", "a"]));
    assert!(refused(&["rtree", "main", "t", "id", "a", "b", "c"]));
    assert!(refused(&[
        "rtree", "main", "t", "id", "a", "b", "c", "d", "e", "f", "g", "h", "i", "j", "k", "l"
    ]));
    assert!(refused(&["rtree", "main", "t", "id", "a", "b", "+"]));
    assert!(refused(&["rtree", "main", "t", "id", "a", "b", "+   "]));
    let mut args = texts(&["rtree", "main", "t", "id", "a", "b"]);
    args[5] = None;
    assert!(matches!(RtreeModule::create(&args), Err(ResultCode::InvalidArgs)));
}

#[test]
fn at_most_a_hundred_auxiliary_columns() {
    let mut args = texts(&["rtree", "main", "t", "id", "a", "b"]);
    for i in 0..100 {
        args.push(Some(format!("+c{i}")));
    }
    assert_eq!(RtreeModule::parse_column_args(&args, 4).unwrap().1.len(), 100);
    args.push(Some("+one_more".to_string()));
    assert!(matches!(
        RtreeModule::parse_column_args(&args, 4),
        Err(ResultCode::InvalidArgs)
    ));
}

#[test]
fn reading_ends_behind_the_auxiliary_columns() {
    let mut args = texts(&["rtree", "main", "t", "id", "a", "b", "+x", "c", "+y"]);
    args.push(None);
    let (n_dim2, aux) = RtreeModule::parse_column_args(&args, 4).unwrap();
    assert_eq!(n_dim2, 2);
    assert_eq!(aux, vec!["x".to_string()]);
}

#[test]
fn table_name_defaults_to_x() {
    let mut args = texts(&["rtree", "main", "t", "id", "a", "b"]);
    args[2] = None;
    let (_, table) = RtreeModule::create(&args).unwrap();
    assert_eq!(table.table_name, "x");
    assert_eq!(table.shadow_node_table(), "x_node");
}

#[test]
fn words_and_quotes() {
    assert_eq!(word_from("+  label\tTEXT", 1), Some("label".to_string()));
    assert_eq!(word_from("+", 1), None);
    assert_eq!(word_from("ab", 0), Some("ab".to_string()));
    assert_eq!(quote_sql_ident("a\"b"), "\"a\"\"b\"");
    assert_eq!(quote_sql_ident(""), "\"\"");
    for u in 0u32..0x3100 {
        if let Some(c) = char::from_u32(u) {
            assert_eq!(is_white_space(c), c.is_whitespace());
        }
    }
}

fn table() -> RtreeTable {
    RtreeModule::create(&texts(&["rtree", "main", "t", "id", "a", "b", "+p", "+q"])).unwrap().1
}

#[test]
fn shadow_table_names() {
    let t = table();
    assert_eq!(t.shadow_node_table(), "t_node");
    assert_eq!(t.shadow_rowid_table(), "t_rowid");
    assert_eq!(t.shadow_parent_table(), "t_parent");
    assert_eq!(t.open().unwrap().shadow_rowid_sql_name(), "t_rowid");
}

#[test]
fn statements_for_changes() {
    let t = table();
    let sql = |w: Write| change_sql(&t.table_name, &t.aux_columns, &w);
    assert_eq!(
        sql(Write::CreateNodeTable),
        "CREATE TABLE t_node (nodeno INTEGER PRIMARY KEY, data BLOB)"
    );
    assert_eq!(
        sql(Write::CreateRowidTable),
        "CREATE TABLE t_rowid (rowid INTEGER PRIMARY KEY, nodeno INTEGER, \"p\" TEXT, \"q\" TEXT)"
    );
    assert_eq!(
        sql(Write::CreateParentTable),
        "CREATE TABLE t_parent (nodeno INTEGER PRIMARY KEY, parentnode INTEGER)"
    );
    assert_eq!(
        sql(Write::Node { nodeno: 1, data: vec![] }),
        "INSERT OR REPLACE INTO t_node (nodeno, data) VALUES (?, ?)"
    );
    assert_eq!(
        sql(Write::Rowid { rowid: 1, nodeno: 1, aux: vec![Value::Null, Value::Null] }),
        "INSERT OR REPLACE INTO t_rowid (rowid, nodeno, \"p\", \"q\") VALUES (?, ?, ?, ?)"
    );
    assert_eq!(
        sql(Write::Parent { nodeno: 2, parentnode: 1 }),
        "INSERT OR REPLACE INTO t_parent (nodeno, parentnode) VALUES (?, ?)"
    );
    assert_eq!(sql(Write::DeleteNode { nodeno: 2 }), "DELETE FROM t_node WHERE nodeno = ?");
    assert_eq!(sql(Write::DeleteRowid { rowid: 2 }), "DELETE FROM t_rowid WHERE rowid = ?");
    assert_eq!(sql(Write::DeleteParent { nodeno: 2 }), "DELETE FROM t_parent WHERE nodeno = ?");
    assert_eq!(sql(Write::DropNodeTable), "DROP TABLE IF EXISTS t_node");
    assert_eq!(sql(Write::DropRowidTable), "DROP TABLE IF EXISTS t_rowid");
    assert_eq!(sql(Write::DropParentTable), "DROP TABLE IF EXISTS t_parent");
}

#[test]
fn parameters_of_changes() {
    let values = change_values(&Write::Rowid {
        rowid: 4,
        nodeno: 9,
        aux: vec![Value::Text("x".to_string()), Value::Null],
    });
    assert_eq!(values.len(), 4);
    assert!(matches!(values[0], Value::Integer(4)));
    assert!(matches!(values[1], Value::Integer(9)));
    assert!(matches!(&values[2], Value::Text(t) if t == "x"));
    assert!(matches!(values[3], Value::Null));
    let page = change_values(&Write::Node { nodeno: 3, data: vec![7, 8] });
    assert!(matches!(page[0], Value::Integer(3)));
    assert!(matches!(&page[1], Value::Blob(b) if *b == vec![7u8, 8]));
    let parent = change_values(&Write::Parent { nodeno: 5, parentnode: 1 });
    assert!(matches!(parent[0], Value::Integer(5)));
    assert!(matches!(parent[1], Value::Integer(1)));
    assert!(change_values(&Write::CreateNodeTable).is_empty());
}

#[test]
fn queries_for_rows() {
    let t = table();
    let sql = |r: Request| query_sql(&t.table_name, &t.aux_columns, &r);
    assert_eq!(
        sql(Request::Node(4)),
        Some(("SELECT data FROM t_node WHERE nodeno = ?".to_string(), 4))
    );
    assert_eq!(
        sql(Request::Parent(4)),
        Some(("SELECT parentnode FROM t_parent WHERE nodeno = ?".to_string(), 4))
    );
    assert_eq!(
        sql(Request::RowidNode(6)),
        Some(("SELECT nodeno FROM t_rowid WHERE rowid = ?".to_string(), 6))
    );
    assert_eq!(
        sql(Request::RowidAux(6)),
        Some(("SELECT \"p\", \"q\" FROM t_rowid WHERE rowid = ?".to_string(), 6))
    );
    assert_eq!(sql(Request::Write(Write::CreateNodeTable)), None);
}

fn offer(column_index: u32, op: ConstraintOp, usable: bool) -> ConstraintInfo {
    ConstraintInfo { column_index, op, usable }
}

#[test]
fn operators_and_their_letters() {
    assert_eq!(constraint_op_to_rtree_op(ConstraintOp::Eq), Some(b'A'));
    assert_eq!(constraint_op_to_rtree_op(ConstraintOp::Le), Some(b'B'));
    assert_eq!(constraint_op_to_rtree_op(ConstraintOp::Lt), Some(b'C'));
    assert_eq!(constraint_op_to_rtree_op(ConstraintOp::Ge), Some(b'D'));
    assert_eq!(constraint_op_to_rtree_op(ConstraintOp::Gt), Some(b'E'));
    assert_eq!(constraint_op_to_rtree_op(ConstraintOp::Other), None);
}

#[test]
fn plan_for_a_row_id() {
    let plan = RtreeTable::best_index(&vec![offer(0, ConstraintOp::Eq, true)]).unwrap();
    assert_eq!(plan.idx_num, 1);
    assert_eq!(plan.idx_str.unwrap(), "rowid_lookup");
    assert_eq!(plan.estimated_cost, 30);
    assert_eq!(plan.estimated_rows, 1);
    assert!(!plan.order_by_consumed);
    assert_eq!(
        plan.constraint_usages,
        vec![ConstraintUsage { argv_index: Some(1), omit: true }]
    );
}

#[test]
fn plan_for_a_row_id_and_coordinates() {
    let plan = RtreeTable::best_index(&vec![
        offer(0, ConstraintOp::Eq, true),
        offer(1, ConstraintOp::Gt, true),
    ])
    .unwrap();
    assert_eq!(plan.idx_num, 1);
    assert_eq!(plan.idx_str.unwrap(), "rowid_lookupE0");
    assert_eq!(
        plan.constraint_usages,
        vec![
            ConstraintUsage { argv_index: Some(1), omit: true },
            ConstraintUsage { argv_index: Some(2), omit: true },
        ]
    );
    // The row id comes first, and only one constraint on it is taken over.
    let plan = RtreeTable::best_index(&vec![
        offer(1, ConstraintOp::Gt, true),
        offer(0, ConstraintOp::Eq, true),
        offer(3, ConstraintOp::Le, true),
        offer(0, ConstraintOp::Eq, true),
        offer(0, ConstraintOp::Gt, true),
    ])
    .unwrap();
    assert_eq!(plan.idx_num, 1);
    assert_eq!(plan.idx_str.unwrap(), "rowid_lookupE0B2");
    assert_eq!(
        plan.constraint_usages,
        vec![
            ConstraintUsage { argv_index: Some(2), omit: true },
            ConstraintUsage { argv_index: Some(1), omit: true },
            ConstraintUsage { argv_index: Some(3), omit: true },
            ConstraintUsage { argv_index: None, omit: false },
            ConstraintUsage { argv_index: None, omit: false },
        ]
    );
}

#[test]
fn plan_for_coordinates() {
    let plan = RtreeTable::best_index(&vec![
        offer(1, ConstraintOp::Gt, true),
        offer(2, ConstraintOp::Lt, false),
        offer(0, ConstraintOp::Lt, true),
        offer(3, ConstraintOp::Other, true),
        offer(12, ConstraintOp::Le, true),
        offer(4, ConstraintOp::Le, true),
    ])
    .unwrap();
    assert_eq!(plan.idx_num, 2);
    assert_eq!(plan.idx_str.unwrap(), "E0B3");
    assert_eq!(plan.estimated_cost, 1000000);
    assert_eq!(plan.estimated_rows, 1048576);
    let indexes: Vec<Option<u32>> =
        plan.constraint_usages.iter().map(|u| u.argv_index).collect();
    assert_eq!(indexes, vec![Some(1), None, None, None, None, Some(2)]);
}

#[test]
fn plan_without_constraints() {
    let plan = RtreeTable::best_index(&vec![offer(2, ConstraintOp::Eq, false)]).unwrap();
    assert_eq!(plan.idx_num, 2);
    assert_eq!(plan.idx_str.unwrap(), "query");
    assert_eq!(plan.constraint_usages.len(), 1);
}

fn number(f: f32) -> Arg {
    Arg {
        integer: None,
        real: Some(Coord { bits: f.to_bits() }),
        value: Value::Float((f as f64).to_bits()),
    }
}

#[test]
fn a_plan_is_read_back_by_the_query() {
    let plan = RtreeTable::best_index(&vec![offer(1, ConstraintOp::Le, true)]).unwrap();
    let mut c = table().open().unwrap();
    let mut store = ShadowStore::detached();
    let idx_str = plan.idx_str.unwrap();
    assert_eq!(
        c.filter(&mut store, &vec![number(5.0)], Some((idx_str.as_str(), plan.idx_num))),
        Ok(ResultCode::OK)
    );
    assert_eq!(c.constraints.len(), 1);
    assert_eq!(c.constraints[0].i_coord, 0);
    assert_eq!(c.constraints[0].op, b'B');
    assert_eq!(c.constraints[0].value, Coord { bits: 5.0f32.to_bits() });
    assert!(c.eof());

    let offers: Vec<ConstraintInfo> =
        (1..=10).map(|column| offer(column, ConstraintOp::Ge, column != 4)).collect();
    let plan = RtreeTable::best_index(&offers).unwrap();
    let idx_str = plan.idx_str.unwrap();
    assert_eq!(idx_str, "D0D1D2D4D5D6D7D8D9");
    let args: Vec<Arg> = (0..9).map(|k| number(k as f32)).collect();
    c.filter(&mut store, &args, Some((idx_str.as_str(), plan.idx_num))).unwrap();
    let taken: Vec<&ConstraintInfo> = offers
        .iter()
        .zip(&plan.constraint_usages)
        .filter(|(_, usage)| usage.argv_index.is_some())
        .map(|(offer, _)| offer)
        .collect();
    assert_eq!(c.constraints.len(), taken.len());
    for (k, read) in c.constraints.iter().enumerate() {
        assert_eq!(read.i_coord as u32 + 1, taken[k].column_index);
        assert_eq!(read.value, Coord { bits: (k as f32).to_bits() });
    }
}

#[test]
fn index_strings_that_hold_no_constraint() {
    let mut c = table().open().unwrap();
    let mut store = ShadowStore::detached();
    for (idx, args) in [
        ("E\u{0}", vec![number(1.0)]),
        ("E/", vec![number(1.0)]),
        ("E0", vec![]),
        ("E0", vec![Arg { integer: None, real: None, value: Value::Text("x".to_string()) }]),
        ("E", vec![number(1.0)]),
    ] {
        assert_eq!(c.filter(&mut store, &args, Some((idx, 2))), Ok(ResultCode::OK));
        assert!(c.constraints.is_empty());
        assert!(c.eof());
    }
    assert_eq!(c.filter(&mut store, &vec![number(1.0)], Some(("Ez", 2))), Ok(ResultCode::OK));
    assert_eq!(c.constraints[0].i_coord, 0x4a);
}

#[test]
fn moving_a_row_changes_its_node_alone() {
    let t = table();
    let w = Write::MoveRow { rowid: 6, nodeno: 9 };
    assert_eq!(
        change_sql(&t.table_name, &t.aux_columns, &w),
        "UPDATE t_rowid SET nodeno = ? WHERE rowid = ?"
    );
    let values = change_values(&w);
    assert_eq!(values.len(), 2);
    assert!(matches!(values[0], Value::Integer(9)));
    assert!(matches!(values[1], Value::Integer(6)));
}
