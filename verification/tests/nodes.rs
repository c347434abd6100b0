use limbo_rtree::constraint::{
    leaf_constraint, matches_leaf, matches_nonleaf, nonleaf_constraint, RtreeConstraint,
    FULLY_WITHIN, NOT_WITHIN, PARTLY_WITHIN,
};
use limbo_rtree::coord::{Area, Coord};
use limbo_rtree::geometry::{
    bounding_cell_for_child_node, cell_contains_mbr, cell_union_mbr_coords, choose_child,
    union_mbr_of_node_cells,
};
use limbo_rtree::module::RtreeModule;
use limbo_rtree::node::{RtreeCell, RtreeNode};
use limbo_rtree::split::{divisions_along, pick_axis, pick_division, split_node};
use limbo_rtree::store::{Rating, Score, ShadowStore, Stop};
use limbo_rtree::table::RtreeTable;
use limbo_rtree::tree_insert::choose_leaf;
use limbo_rtree::value::{value_to_owned, Arg, ResultCode, Value};

fn new_table(args: Vec<&str>) -> RtreeTable {
    let args: Vec<Option<String>> = args.iter().map(|s| Some(s.to_string())).collect();
    RtreeModule::create(&args).unwrap().1
}

fn coord(f: f32) -> Coord {
    Coord { bits: f.to_bits() }
}

fn float(c: Coord) -> f32 {
    f32::from_bits(c.bits)
}

fn area(f: f64) -> Area {
    Area { bits: f.to_bits() }
}

fn cell(rowid: i64, coords: &[f32]) -> RtreeCell {
    let mut out = RtreeCell::new(rowid);
    for (i, c) in coords.iter().enumerate() {
        out.coords[i] = coord(*c);
    }
    out
}

fn real_arg(f: f64) -> Arg {
    Arg { integer: None, real: Some(coord(f as f32)), value: Value::Float(f.to_bits()) }
}

#[test]
fn test_create_table() {
    let table = new_table(vec![
        "rtree", "main", "test", "id", "xmin", "xmax", "ymin", "ymax",
    ]);
    assert_eq!(table.n_dim2, 4);
    assert_eq!(table.n_dim2 / 2, 2);
    assert!(table.aux_columns.is_empty());
}

#[test]
fn test_create_table_with_aux_column() {
    let table = new_table(vec![
        "rtree", "main", "t", "id", "xmin", "xmax", "ymin", "ymax", "+label",
    ]);
    assert_eq!(table.n_dim2, 4);
    assert_eq!(table.aux_columns, vec!["label".to_string()]);
}

#[test]
fn test_node_creation() {
    let node = RtreeNode::new(1, 0, 4096 - 64);
    assert_eq!(node.node_no, 1);
    assert_eq!(node.cell_count(), 0);
}

#[test]
fn test_max_cells() {
    let table = new_table(vec![
        "rtree", "main", "test", "id", "xmin", "xmax", "ymin", "ymax",
    ]);
    let max_cells = table.max_cells();
    assert!(max_cells > 0);
    assert_eq!(table.min_cells(), max_cells / 3);
}

#[test]
fn test_cursor_creation() {
    let table = new_table(vec![
        "rtree", "main", "test", "id", "xmin", "xmax", "ymin", "ymax",
    ]);
    let cursor = table.open().unwrap();
    assert!(cursor.eof());
}

#[test]
fn test_node_read_write_coord() {
    let mut node = RtreeNode::new(1, 0, 4096 - 64);
    node.write_coord(100, coord(3.14159));
    let val = float(node.read_coord(100));
    assert!((val - 3.14159).abs() < 0.0001);
}

#[test]
fn test_node_read_write_int64() {
    let mut node = RtreeNode::new(1, 0, 4096 - 64);
    node.write_int64(50, 1234567890i64);
    let val = node.read_int64(50);
    assert_eq!(val, 1234567890i64);
}

#[test]
fn test_node_cell_operations() {
    let n_dim2 = 4;
    let n_bytes_per_cell = 8 + n_dim2 * 4;
    let mut node = RtreeNode::new(1, 0, 4096 - 64);

    let mut cell = RtreeCell::new(42);
    cell.coords[0] = coord(1.0);
    cell.coords[1] = coord(5.0);
    cell.coords[2] = coord(2.0);
    cell.coords[3] = coord(6.0);

    node.set_cell(n_dim2, n_bytes_per_cell, 0, &cell);
    node.set_cell_count(1);

    assert_eq!(node.cell_count(), 1);
    let read_cell = node.get_cell(n_dim2, n_bytes_per_cell, 0);
    assert_eq!(read_cell.rowid, 42);
    assert!((float(read_cell.coords[0]) - 1.0).abs() < 0.0001);
    assert!((float(read_cell.coords[1]) - 5.0).abs() < 0.0001);
    assert!((float(read_cell.coords[2]) - 2.0).abs() < 0.0001);
    assert!((float(read_cell.coords[3]) - 6.0).abs() < 0.0001);
}

#[test]
fn test_node_depth() {
    let mut node = RtreeNode::new(1, 5, 4096 - 64);
    assert_eq!(node.tree_depth(), 5);
    node.set_depth(3);
    assert_eq!(node.tree_depth(), 3);
}

#[test]
fn test_leaf_constraint() {
    let mut coords = [coord(0.0); 10];
    coords[0] = coord(5.0); // xmin
    coords[1] = coord(10.0); // xmax
    coords[2] = coord(3.0); // ymin
    coords[3] = coord(7.0); // ymax
    let mut test_cell = RtreeCell::new(1);
    test_cell.coords = coords;

    let constraint = RtreeConstraint { i_coord: 0, op: b'E', value: coord(15.0) };

    let result = leaf_constraint(&constraint, &test_cell, 4);
    assert_eq!(result, NOT_WITHIN);
}

#[test]
fn test_nonleaf_constraint() {
    let mut coords = [coord(0.0); 10];
    coords[0] = coord(5.0);
    coords[1] = coord(10.0);
    let mut test_cell = RtreeCell::new(1);
    test_cell.coords = coords;

    let constraint = RtreeConstraint { i_coord: 0, op: b'B', value: coord(4.0) };

    let result = nonleaf_constraint(&constraint, &test_cell, 4);
    assert_eq!(result, NOT_WITHIN);
}

#[test]
fn test_choose_leaf() {
    let table = new_table(vec![
        "rtree", "main", "test", "id", "xmin", "xmax", "ymin", "ymax",
    ]);
    let cell = RtreeCell::new(1);
    let mut store = ShadowStore::detached();
    let leaf = choose_leaf(&table, &mut store, &cell, 4).unwrap();
    assert!(leaf.is_some());
}

#[test]
fn test_split_node() {
    let table = new_table(vec![
        "rtree", "main", "test", "id", "xmin", "xmax", "ymin", "ymax",
    ]);
    let mut node = RtreeNode::new(1, 0, 4096 - 64);
    node.set_cell_count(0);

    let cell = RtreeCell::new(1);
    let (left, right) = split_node(&table, &node, &cell, 4, &vec![]);

    assert!(left.cell_count() > 0 || right.cell_count() > 0);
}

#[test]
fn test_cell_union_and_contains_mbr() {
    let mut a = RtreeCell::new(1);
    a.coords[0] = coord(0.0);
    a.coords[1] = coord(2.0);
    a.coords[2] = coord(1.0);
    a.coords[3] = coord(3.0);

    let mut b = RtreeCell::new(2);
    b.coords[0] = coord(1.0);
    b.coords[1] = coord(5.0);
    b.coords[2] = coord(0.0);
    b.coords[3] = coord(2.0);

    let u = cell_union_mbr_coords(&a, &b, 4);
    assert!((float(u.coords[0]) - 0.0).abs() < 1e-5);
    assert!((float(u.coords[1]) - 5.0).abs() < 1e-5);
    assert!((float(u.coords[2]) - 0.0).abs() < 1e-5);
    assert!((float(u.coords[3]) - 3.0).abs() < 1e-5);

    assert!(cell_contains_mbr(&u, &a, 4));
    assert!(cell_contains_mbr(&u, &b, 4));
}

#[test]
fn test_bounding_cell_for_child_node() {
    let table = new_table(vec![
        "rtree", "main", "test", "id", "xmin", "xmax", "ymin", "ymax",
    ]);
    let n_dim2 = 4;
    let n_bytes = table.n_bytes_per_cell;
    let mut node = RtreeNode::new(1, 0, 4096 - 64);

    let mut a = RtreeCell::new(1);
    a.coords[0] = coord(0.0);
    a.coords[1] = coord(1.0);
    a.coords[2] = coord(0.0);
    a.coords[3] = coord(1.0);

    let mut b = RtreeCell::new(2);
    b.coords[0] = coord(2.0);
    b.coords[1] = coord(10.0);
    b.coords[2] = coord(3.0);
    b.coords[3] = coord(4.0);

    node.set_cell(n_dim2, n_bytes, 0, &a);
    node.set_cell(n_dim2, n_bytes, 1, &b);
    node.set_cell_count(2);

    let bc = bounding_cell_for_child_node(&table, &node, 99, n_dim2);
    assert_eq!(bc.rowid, 99);
    assert!((float(bc.coords[0]) - 0.0).abs() < 1e-5);
    assert!((float(bc.coords[1]) - 10.0).abs() < 1e-5);
    assert!((float(bc.coords[2]) - 0.0).abs() < 1e-5);
    assert!((float(bc.coords[3]) - 4.0).abs() < 1e-5);
}

#[test]
fn test_delete_cell_from_node() {
    let mut node = RtreeNode::new(1, 0, 4096 - 64);
    let n_dim2 = 4;
    let n_bytes_per_cell = 8 + n_dim2 * 4;

    let mut cell1 = RtreeCell::new(1);
    cell1.coords[0] = coord(1.0);
    cell1.coords[1] = coord(5.0);
    cell1.coords[2] = coord(2.0);
    cell1.coords[3] = coord(6.0);

    let mut cell2 = RtreeCell::new(2);
    cell2.coords[0] = coord(3.0);
    cell2.coords[1] = coord(7.0);
    cell2.coords[2] = coord(4.0);
    cell2.coords[3] = coord(8.0);

    node.set_cell(n_dim2, n_bytes_per_cell, 0, &cell1);
    node.set_cell(n_dim2, n_bytes_per_cell, 1, &cell2);
    node.set_cell_count(2);

    assert_eq!(node.cell_count(), 2);

    let table = new_table(vec![
        "rtree", "main", "test", "id", "xmin", "xmax", "ymin", "ymax",
    ]);

    table.delete_cell_from_node(&mut node, 0);

    assert_eq!(node.cell_count(), 1);

    let remaining_cell = node.get_cell(n_dim2, n_bytes_per_cell, 0);
    assert_eq!(remaining_cell.rowid, 2);
}

#[test]
fn test_update_requires_conn() {
    let mut table = new_table(vec![
        "rtree", "main", "test", "id", "xmin", "xmax", "ymin", "ymax",
    ]);
    let args = vec![
        Arg { integer: Some(1), real: Some(coord(1.0)), value: Value::Integer(1) },
        real_arg(0.0),
        real_arg(1.0),
        real_arg(0.0),
        real_arg(1.0),
    ];
    let mut store = ShadowStore::detached();
    assert_eq!(
        table.update(&mut store, 1, &args),
        Err(Stop::Code(ResultCode::InvalidArgs))
    );
}

#[test]
fn coordinates_are_ordered_like_floats() {
    let samples = [
        f32::NEG_INFINITY,
        f32::MIN,
        -2.5,
        -f32::MIN_POSITIVE,
        -0.0,
        0.0,
        f32::MIN_POSITIVE,
        1.0,
        3.5,
        f32::MAX,
        f32::INFINITY,
        f32::NAN,
    ];
    for a in samples {
        for b in samples {
            assert_eq!(coord(a).lt(coord(b)), a < b);
            assert_eq!(coord(a).le(coord(b)), a <= b);
            assert_eq!(coord(a).same(coord(b)), a == b);
            let lower = float(coord(a).min(coord(b)));
            let higher = float(coord(a).max(coord(b)));
            assert!(lower == a.min(b) || (lower.is_nan() && a.min(b).is_nan()));
            assert!(higher == a.max(b) || (higher.is_nan() && a.max(b).is_nan()));
            assert_eq!(area(a as f64).lt(area(b as f64)), (a as f64) < (b as f64));
        }
    }
    assert!(coord(f32::NAN).is_nan());
    assert!(!coord(f32::INFINITY).is_nan());
    assert!(area(f64::NAN).is_nan());
    assert_eq!(Coord::zero().bits, 0);
}

#[test]
fn page_bytes_follow_the_layout() {
    let mut node = RtreeNode::new(1, 0x0102, 4032);
    node.set_cell_count(0x0304);
    assert_eq!(&node.data[0..4], &[1, 2, 3, 4]);
    node.set_cell_count(1);
    node.set_cell(2, 16, 0, &cell(-2, &[1.0, 2.0]));
    assert_eq!(&node.data[4..12], &[0xff, 0xff, 0xff, 0xff, 0xff, 0xff, 0xff, 0xfe]);
    assert_eq!(&node.data[12..16], &[0x3f, 0x80, 0, 0]);
    assert_eq!(&node.data[16..20], &2.0f32.to_be_bytes());
    assert_eq!(node.read_int64(4), -2);
    assert!(node.is_dirty);
}

#[test]
fn only_the_root_knows_the_depth() {
    let mut node = RtreeNode::new(2, 7, 4032);
    assert_eq!(node.tree_depth(), 0);
    node.set_depth(3);
    assert_eq!(node.tree_depth(), 0);
    assert_eq!(&node.data[0..2], &[0, 0]);
}

#[test]
fn counts_keep_their_low_sixteen_bits() {
    let mut node = RtreeNode::new(1, 0, 4032);
    node.set_cell_count(0x1_0005);
    assert_eq!(node.cell_count(), 5);
    node.set_depth(0x2_0007);
    assert_eq!(node.tree_depth(), 7);
}

#[test]
fn room_of_a_page_by_dimensions() {
    let one = new_table(vec!["rtree", "main", "t", "id", "a", "b"]);
    assert_eq!(one.max_cells(), 251);
    assert_eq!(one.min_cells(), 83);
    let two = new_table(vec!["rtree", "main", "t", "id", "a", "b", "c", "d"]);
    assert_eq!(two.max_cells(), 167);
    assert_eq!(two.min_cells(), 55);
    let five = new_table(vec![
        "rtree", "main", "t", "id", "a", "b", "c", "d", "e", "f", "g", "h", "i", "j",
    ]);
    assert_eq!(five.max_cells(), 83);
    assert_eq!(five.n_bytes_per_cell, 48);
}

#[test]
fn find_cell_index_gives_the_first() {
    let table = new_table(vec!["rtree", "main", "t", "id", "a", "b"]);
    let mut node = RtreeNode::new(3, 0, 4032);
    for (i, id) in [7, 9, 7].iter().enumerate() {
        node.set_cell(2, 16, i, &cell(*id, &[0.0, 1.0]));
    }
    node.set_cell_count(3);
    assert_eq!(table.find_cell_index(&node, 7), Some(0));
    assert_eq!(table.find_cell_index(&node, 9), Some(1));
    assert_eq!(table.find_cell_index(&node, 8), None);
    table.delete_cell_from_node(&mut node, 5);
    assert_eq!(node.cell_count(), 3);
    table.delete_cell_from_node(&mut node, 1);
    assert_eq!(node.cell_count(), 2);
    assert_eq!(node.get_cell(2, 16, 1).rowid, 7);
}

#[test]
fn split_keeps_all_cells_in_order() {
    let table = new_table(vec!["rtree", "main", "t", "id", "a", "b"]);
    let mut node = RtreeNode::new(1, 0, 4032);
    for i in 0..4 {
        node.set_cell(2, 16, i, &cell(i as i64 + 1, &[i as f32, i as f32 + 0.5]));
    }
    node.set_cell_count(4);
    let (left, right) = split_node(&table, &node, &cell(5, &[4.0, 4.5]), 2, &vec![]);
    assert_eq!(left.cell_count(), 3);
    assert_eq!(right.cell_count(), 2);
    let ids: Vec<i64> = (0..3)
        .map(|i| left.get_cell(2, 16, i).rowid)
        .chain((0..2).map(|i| right.get_cell(2, 16, i).rowid))
        .collect();
    assert_eq!(ids, vec![1, 2, 3, 4, 5]);
    assert_eq!(float(right.get_cell(2, 16, 1).coords[1]), 4.5);
}

fn score(overlap: f64, size: f64) -> Score {
    Score { overlap: area(overlap), area: area(size) }
}

#[test]
fn the_best_division_and_the_best_axis() {
    let scores =
        vec![score(2.0, 1.0), score(1.0, 9.0), score(1.0, 8.0), score(1.0, 8.0), score(3.0, 0.0)];
    assert_eq!(pick_division(&scores, 5), 2);
    assert_eq!(pick_division(&scores, 2), 1);
    assert_eq!(pick_division(&scores, 0), 0);
    let rating = |margin: f64| Rating { margin: area(margin), scores: vec![] };
    assert_eq!(pick_axis(&vec![rating(5.0), rating(4.0), rating(4.0)]), 1);
}

#[test]
fn a_full_node_is_split_along_the_rated_axis() {
    let table = new_table(vec!["rtree", "main", "t", "id", "a", "b"]);
    let mut node = RtreeNode::new(1, 0, 4032);
    for i in 0..251 {
        let low = (251 - i) as f32;
        node.set_cell(2, 16, i, &cell(i as i64 + 1, &[low, low + 0.5]));
    }
    node.set_cell_count(251);
    let new = cell(252, &[100.0, 100.25]);
    let divisions = divisions_along(&table, &node, &new, 2, 0);
    assert_eq!(divisions.len(), 252 - 2 * 83 + 1);
    assert_eq!(float(divisions[0].left[0]), 1.0);
    assert_eq!(float(divisions[0].left[1]), 83.5);
    assert_eq!(float(divisions[0].right[0]), 84.0);
    assert_eq!(float(divisions[0].right[1]), 251.5);
    let mut scores = vec![score(1.0, 1.0); divisions.len()];
    scores[20] = score(0.0, 5.0);
    let (left, right) =
        split_node(&table, &node, &new, 2, &vec![Rating { margin: area(1.0), scores }]);
    assert_eq!((left.cell_count(), right.cell_count()), (103, 149));
    let lows: Vec<f32> = (0..103)
        .map(|i| float(left.get_cell(2, 16, i).coords[0]))
        .chain((0..149).map(|i| float(right.get_cell(2, 16, i).coords[0])))
        .collect();
    assert!(lows.windows(2).all(|w| w[0] <= w[1]));
    // The new cell comes before the one with the same lower and a higher upper coordinate.
    assert_eq!(left.get_cell(2, 16, 99).rowid, 252);
    assert_eq!(left.get_cell(2, 16, 100).rowid, 152);
}

#[test]
fn union_of_a_node() {
    let table = new_table(vec!["rtree", "main", "t", "id", "a", "b"]);
    let mut node = RtreeNode::new(2, 0, 4032);
    assert!(union_mbr_of_node_cells(&table, &node, 2).is_none());
    let empty = bounding_cell_for_child_node(&table, &node, 4, 2);
    assert_eq!(empty.rowid, 4);
    assert_eq!(float(empty.coords[0]), 0.0);
    node.set_cell(2, 16, 0, &cell(8, &[2.0, 3.0]));
    node.set_cell(2, 16, 1, &cell(9, &[-1.0, 2.5]));
    node.set_cell_count(2);
    let u = union_mbr_of_node_cells(&table, &node, 2).unwrap();
    assert_eq!(u.rowid, 8);
    assert_eq!(float(u.coords[0]), -1.0);
    assert_eq!(float(u.coords[1]), 3.0);
    assert!(!cell_contains_mbr(&node.get_cell(2, 16, 1), &u, 2));
}

#[test]
fn smallest_child_wins_and_the_first_of_equals() {
    assert_eq!(choose_child(&vec![area(4.0), area(1.0), area(1.0)]), 1);
    assert_eq!(choose_child(&vec![area(f64::MAX), area(f64::INFINITY)]), 0);
    assert_eq!(choose_child(&vec![area(f64::NAN), area(2.0)]), 1);
}

#[test]
fn leaf_constraint_by_operator() {
    let c = cell(1, &[2.0, 8.0, 3.0, 9.0]);
    let judge = |i_coord: usize, op: u8, v: f32| {
        leaf_constraint(&RtreeConstraint { i_coord, op, value: coord(v) }, &c, 4) != NOT_WITHIN
    };
    for (i, x) in [2.0f32, 8.0, 3.0, 9.0].into_iter().enumerate() {
        for v in [x - 1.0, x, x + 1.0] {
            assert_eq!(judge(i, b'A', v), x == v);
            assert_eq!(judge(i, b'B', v), x <= v);
            assert_eq!(judge(i, b'C', v), x < v);
            assert_eq!(judge(i, b'D', v), x >= v);
            assert_eq!(judge(i, b'E', v), x > v);
            assert!(judge(i, b'Z', v));
        }
    }
    let far = RtreeConstraint { i_coord: 8, op: b'E', value: coord(100.0) };
    assert_eq!(leaf_constraint(&far, &c, 4), FULLY_WITHIN);
    let no = RtreeConstraint { i_coord: 3, op: b'E', value: coord(9.0) };
    assert_eq!(leaf_constraint(&no, &c, 4), NOT_WITHIN);
    // An upper limit beyond the box is met in part.
    let beyond = RtreeConstraint { i_coord: 0, op: b'B', value: coord(15.0) };
    assert_eq!(leaf_constraint(&beyond, &cell(1, &[5.0, 10.0, 3.0, 7.0]), 4), PARTLY_WITHIN);
    let inside = RtreeConstraint { i_coord: 0, op: b'B', value: coord(10.0) };
    assert_eq!(leaf_constraint(&inside, &cell(1, &[5.0, 10.0, 3.0, 7.0]), 4), FULLY_WITHIN);
}

#[test]
fn nonleaf_constraint_by_operator() {
    let c = cell(1, &[2.0, 8.0, 3.0, 9.0]);
    let judge = |i_coord: usize, op: u8, v: f32| {
        nonleaf_constraint(&RtreeConstraint { i_coord, op, value: coord(v) }, &c, 4) != NOT_WITHIN
    };
    for i in 0..4 {
        let (low, high) = if i < 2 { (2.0f32, 8.0f32) } else { (3.0, 9.0) };
        for v in [low - 1.0, low, 5.0, high, high + 1.0] {
            assert_eq!(judge(i, b'A', v), low <= v && v <= high);
            assert_eq!(judge(i, b'B', v), low <= v);
            assert_eq!(judge(i, b'C', v), low < v);
            assert_eq!(judge(i, b'D', v), high >= v);
            assert_eq!(judge(i, b'E', v), high > v);
            assert!(judge(i, b'Z', v));
        }
    }
    assert!(judge(4, b'E', 100.0));
}

#[test]
fn an_error_value_is_kept_as_null() {
    assert!(matches!(value_to_owned(&Value::Error), Value::Null));
    assert!(matches!(value_to_owned(&Value::Integer(5)), Value::Integer(5)));
    match value_to_owned(&Value::Text("abc".to_string())) {
        Value::Text(t) => assert_eq!(t, "abc"),
        _ => panic!("not a text"),
    }
    match value_to_owned(&Value::Blob(vec![1, 2])) {
        Value::Blob(b) => assert_eq!(b, vec![1, 2]),
        _ => panic!("not a blob"),
    }
}

#[test]
fn no_operator_prunes_a_row_that_meets_it() {
    let outer = cell(9, &[3.0, 8.0, -1.0, 6.0]);
    let inner = cell(1, &[4.0, 6.0, -1.0, 2.0]);
    assert!(cell_contains_mbr(&outer, &inner, 4));
    for op in b"ABCDE" {
        for i_coord in 0..4 {
            for v in -2..10 {
                let c = RtreeConstraint { i_coord, op: *op, value: coord(v as f32) };
                if leaf_constraint(&c, &inner, 4) != NOT_WITHIN {
                    assert!(nonleaf_constraint(&c, &outer, 4) != NOT_WITHIN);
                    assert!(matches_nonleaf(&vec![c], &outer, 4));
                    assert!(matches_leaf(&vec![c], &inner, 4));
                }
            }
        }
    }
}
