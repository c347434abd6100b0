//! Planning a query: which constraints the index takes over, and how they reach the cursor.

use vstd::prelude::*;
use crate::constraint;
use crate::constraint::{RtreeConstraint, RTREE_EQ, RTREE_GE, RTREE_GT, RTREE_LE, RTREE_LT};
use crate::cursor;
use crate::node::{CellView, RTREE_MAX_COORDS};
use crate::plan_laws;
use crate::table::RtreeTable;
use crate::value::{ArgView, ResultCode};

verus! {

/// Rows that a scan is estimated to give.
pub const RTREE_DEFAULT_ROWEST: u32 = 1048576;

/// The least number of rows that a scan is estimated to give.
pub const RTREE_MIN_ROWEST: u32 = 100;

/// Plan number of a row id lookup.
pub const IDX_NUM_ROWID: i32 = 1;

/// Plan number of a scan.
pub const IDX_NUM_QUERY: i32 = 2;

/// Estimated cost of a row id lookup.
pub const COST_ROWID: u32 = 30;

/// Estimated cost of a scan.
pub const COST_QUERY: u32 = 1000000;

/// Operator of a constraint in a query.
#[derive(Clone, Copy, Debug, PartialEq, Eq, Structural)]
pub enum ConstraintOp {
    Eq,
    Lt,
    Le,
    Gt,
    Ge,
    /// Any operator that the index has no use for.
    Other,
}

/// A constraint that the query planner offers.
#[derive(Clone, Copy, Debug, PartialEq, Eq, Structural)]
pub struct ConstraintInfo {
    pub column_index: u32,
    pub op: ConstraintOp,
    pub usable: bool,
}

/// What becomes of an offered constraint.
#[derive(Clone, Copy, Debug, PartialEq, Eq, Structural)]
pub struct ConstraintUsage {
    /// The argument, counted from 1, that the right side is handed over in.
    pub argv_index: Option<u32>,
    /// The index tests the constraint, so nobody else has to. A column that turns out not to be a
    /// coordinate of the table is tested by nobody.
    pub omit: bool,
}

/// A plan for a query.
#[derive(Clone, Debug)]
pub struct IndexInfo {
    pub idx_num: i32,
    pub idx_str: Option<String>,
    pub order_by_consumed: bool,
    pub estimated_cost: u32,
    pub estimated_rows: u32,
    pub constraint_usages: Vec<ConstraintUsage>,
}

/// The letter of an operator, or nothing for one that the index has no use for.
pub open spec fn op_letter(op: ConstraintOp) -> Option<u8> {
    match op {
        ConstraintOp::Eq => Some(RTREE_EQ),
        ConstraintOp::Le => Some(RTREE_LE),
        ConstraintOp::Lt => Some(RTREE_LT),
        ConstraintOp::Ge => Some(RTREE_GE),
        ConstraintOp::Gt => Some(RTREE_GT),
        ConstraintOp::Other => None,
    }
}

/// The constraint fixes the row id.
pub open spec fn on_rowid(c: ConstraintInfo) -> bool {
    c.usable && c.column_index == 0 && c.op is Eq
}

/// The constraint is one on a coordinate that the index takes over. No table has a coordinate
/// behind the tenth column. A plan is made without the table at hand, so a column up to the tenth
/// counts as a coordinate also where the table holds an auxiliary column there.
pub open spec fn on_coordinate(c: ConstraintInfo) -> bool {
    c.usable && 1 <= c.column_index <= RTREE_MAX_COORDS && op_letter(c.op) is Some
}

/// The constraints of a list on coordinates that are taken over, in their order.
pub open spec fn coordinates(cs: Seq<ConstraintInfo>) -> Seq<ConstraintInfo>
    decreases cs.len(),
{
    if cs.len() == 0 {
        Seq::empty()
    } else if on_coordinate(cs.last()) {
        coordinates(cs.drop_last()).push(cs.last())
    } else {
        coordinates(cs.drop_last())
    }
}

/// Some constraint fixes the row id.
pub open spec fn fixes_rowid(constraints: Seq<ConstraintInfo>) -> bool {
    exists|i: int| 0 <= i < constraints.len() && #[trigger] on_rowid(constraints[i])
}

/// How many arguments a row id that is fixed takes.
pub open spec fn key_count(constraints: Seq<ConstraintInfo>) -> nat {
    if fixes_rowid(constraints) {
        1
    } else {
        0
    }
}

/// How many arguments a plan asks for.
pub open spec fn asked(constraints: Seq<ConstraintInfo>) -> nat {
    key_count(constraints) + coordinates(constraints).len()
}

/// What becomes of the `i`-th constraint. The first one that fixes the row id is handed over first,
/// and any other that does is left to the caller. The coordinates come behind it in their order.
pub open spec fn usage(constraints: Seq<ConstraintInfo>, i: int) -> ConstraintUsage {
    if on_rowid(constraints[i]) && !fixes_rowid(constraints.take(i)) {
        ConstraintUsage { argv_index: Some(1), omit: true }
    } else if on_coordinate(constraints[i]) {
        ConstraintUsage {
            argv_index: Some(
                (key_count(constraints) + coordinates(constraints.take(i)).len() + 1) as u32,
            ),
            omit: true,
        }
    } else {
        ConstraintUsage { argv_index: None, omit: false }
    }
}

/// The two characters that a constraint on a coordinate gives: the operator letter, then the digit
/// of the coordinate.
pub open spec fn pair(c: ConstraintInfo) -> Seq<char> {
    seq![op_letter(c.op)->0 as char, (0x30 + (c.column_index - 1)) as char]
}

/// The pairs of a list of constraints on coordinates.
pub open spec fn pairs(taken: Seq<ConstraintInfo>) -> Seq<char>
    decreases taken.len(),
{
    if taken.len() == 0 {
        Seq::empty()
    } else {
        pairs(taken.drop_last()) + pair(taken.last())
    }
}

/// The index string: the word for a lookup where the row id is fixed, then the pairs of the
/// coordinates that are taken over. Where nothing is taken over it is the word for a query.
pub open spec fn index_text(constraints: Seq<ConstraintInfo>) -> Seq<char> {
    if fixes_rowid(constraints) {
        "rowid_lookup"@ + pairs(coordinates(constraints))
    } else if coordinates(constraints).len() > 0 {
        pairs(coordinates(constraints))
    } else {
        "query"@
    }
}

pub fn constraint_op_to_rtree_op(op: ConstraintOp) -> (r: Option<u8>)
    ensures
        r == op_letter(op),
{
    match op {
        ConstraintOp::Eq => Some(RTREE_EQ),
        ConstraintOp::Le => Some(RTREE_LE),
        ConstraintOp::Lt => Some(RTREE_LT),
        ConstraintOp::Ge => Some(RTREE_GE),
        ConstraintOp::Gt => Some(RTREE_GT),
        ConstraintOp::Other => None,
    }
}

/// The letter of an operator as text.
fn letter_text(letter: u8) -> (r: &'static str)
    requires
        RTREE_EQ <= letter <= RTREE_GT,
    ensures
        r@ == seq![letter as char],
{
    proof {
        reveal_strlit("A");
        reveal_strlit("B");
        reveal_strlit("C");
        reveal_strlit("D");
        reveal_strlit("E");
    }
    let text = if letter == RTREE_EQ {
        "A"
    } else if letter == RTREE_LE {
        "B"
    } else if letter == RTREE_LT {
        "C"
    } else if letter == RTREE_GE {
        "D"
    } else {
        "E"
    };
    assert(text@ =~= seq![letter as char]);
    text
}

/// A number below ten as its digit.
fn coordinate_text(k: u32) -> (r: &'static str)
    requires
        k < 10,
    ensures
        r@ == seq![(0x30 + k) as char],
{
    proof {
        reveal_strlit("0");
        reveal_strlit("1");
        reveal_strlit("2");
        reveal_strlit("3");
        reveal_strlit("4");
        reveal_strlit("5");
        reveal_strlit("6");
        reveal_strlit("7");
        reveal_strlit("8");
        reveal_strlit("9");
    }
    let text = if k == 0 {
        "0"
    } else if k == 1 {
        "1"
    } else if k == 2 {
        "2"
    } else if k == 3 {
        "3"
    } else if k == 4 {
        "4"
    } else if k == 5 {
        "5"
    } else if k == 6 {
        "6"
    } else if k == 7 {
        "7"
    } else if k == 8 {
        "8"
    } else {
        "9"
    };
    assert(text@ =~= seq![(0x30 + k) as char]);
    text
}

impl RtreeTable {
    /// Plans a query with the given constraints.
    pub fn best_index(constraints: &Vec<ConstraintInfo>) -> (r: Result<IndexInfo, ResultCode>)
        ensures
            r is Ok,
            ({
                let plan = r->Ok_0;
                let cs = constraints@;
                &&& plan.constraint_usages@ == Seq::new(cs.len(), |i: int| usage(cs, i))
                &&& plan.idx_num == if fixes_rowid(cs) {
                    IDX_NUM_ROWID
                } else {
                    IDX_NUM_QUERY
                }
                &&& plan.idx_str matches Some(text) && text@ == index_text(cs)
                &&& plan.estimated_cost == if fixes_rowid(cs) {
                    COST_ROWID
                } else {
                    COST_QUERY
                }
                &&& plan.estimated_rows == if fixes_rowid(cs) {
                    1
                } else {
                    RTREE_DEFAULT_ROWEST
                }
                &&& !plan.order_by_consumed
            }),
            ({
                let plan = r->Ok_0;
                let cs = constraints@;
                let usages = plan.constraint_usages@;
                &&& usages.len() == cs.len()
                &&& forall|i: int|
                    0 <= i < cs.len() && !cs[i].usable ==> (#[trigger] usages[i]).argv_index is None
                        && !usages[i].omit
                &&& forall|i: int|
                    0 <= i < cs.len() && plan_laws::compares_coordinate(cs[i]) ==> (
                    #[trigger] usages[i]).argv_index is Some && usages[i].omit
                &&& plan.idx_num == 1 <==> plan_laws::some_gives_rowid(cs)
                &&& plan.idx_num == 2 <==> !plan_laws::some_gives_rowid(cs)
                &&& plan.estimated_cost == (if plan_laws::some_gives_rowid(cs) {
                    30u32
                } else {
                    1000000u32
                })
                &&& plan.estimated_rows == (if plan_laws::some_gives_rowid(cs) {
                    1u32
                } else {
                    1048576u32
                })
            }),
    {
        let mut idx_num: i32 = IDX_NUM_QUERY;
        let mut estimated_cost: u32 = COST_QUERY;
        let mut estimated_rows: u32 = if RTREE_DEFAULT_ROWEST < RTREE_MIN_ROWEST {
            RTREE_MIN_ROWEST
        } else {
            RTREE_DEFAULT_ROWEST
        };
        let ghost cs = constraints@;
        proof {
            plan_laws::lemma_rowid_plans(cs);
        }
        let fixed: bool = has_key(constraints);
        let keys: usize = if fixed {
            1
        } else {
            0
        };
        let mut usages: Vec<ConstraintUsage> = Vec::new();
        let mut text: String = String::new();
        let mut taken: usize = 0;
        let mut seen: bool = false;
        let mut i: usize = 0;
        assert(cs.take(0) =~= Seq::empty());
        assert(text@ =~= pairs(Seq::empty()));
        while i < constraints.len()
            invariant
                cs == constraints@,
                i <= constraints.len(),
                usages.len() == i,
                fixed == fixes_rowid(cs),
                keys == key_count(cs),
                seen == fixes_rowid(cs.take(i as int)),
                taken <= i,
                taken == coordinates(cs.take(i as int)).len(),
                text@ == pairs(coordinates(cs.take(i as int))),
                forall|j: int| 0 <= j < i ==> #[trigger] usages@[j] == usage(cs, j),
            decreases constraints.len() - i,
        {
            let c: ConstraintInfo = constraints[i];
            proof {
                lemma_one_more(cs, i as int);
            }
            if c.usable && c.column_index == 0 && c.op == ConstraintOp::Eq {
                if seen {
                    usages.push(ConstraintUsage { argv_index: None, omit: false });
                } else {
                    usages.push(ConstraintUsage { argv_index: Some(1), omit: true });
                }
                seen = true;
            } else if c.usable && c.column_index >= 1 && c.column_index <= 10 {
                if let Some(letter) = constraint_op_to_rtree_op(c.op) {
                    let number: u128 = keys as u128 + taken as u128 + 1;
                    usages.push(ConstraintUsage { argv_index: Some(number as u32), omit: true });
                    taken = taken + 1;
                    let k: u32 = c.column_index - 1;
                    let ghost before = text@;
                    text.append(letter_text(letter));
                    text.append(coordinate_text(k));
                    assert(text@ =~= before + pair(c));
                    proof {
                        let less = coordinates(cs.take(i as int));
                        assert(less.push(c).drop_last() =~= less);
                    }
                } else {
                    usages.push(ConstraintUsage { argv_index: None, omit: false });
                }
            } else {
                usages.push(ConstraintUsage { argv_index: None, omit: false });
            }
            i = i + 1;
        }
        assert(cs.take(cs.len() as int) =~= cs);
        let idx_str: String = if fixed {
            idx_num = IDX_NUM_ROWID;
            estimated_cost = COST_ROWID;
            estimated_rows = 1;
            let mut lookup: String = "rowid_lookup".to_owned();
            lookup.append(text.as_str());
            lookup
        } else if taken > 0 {
            text
        } else {
            "query".to_owned()
        };
        assert(usages@ =~= Seq::new(cs.len(), |i: int| usage(cs, i)));
        Ok(
            IndexInfo {
                idx_num,
                idx_str: Some(idx_str),
                order_by_consumed: false,
                estimated_cost,
                estimated_rows,
                constraint_usages: usages,
            },
        )
    }
}

/// Whether some constraint fixes the row id.
fn has_key(constraints: &Vec<ConstraintInfo>) -> (r: bool)
    ensures
        r == fixes_rowid(constraints@),
{
    let mut i: usize = 0;
    while i < constraints.len()
        invariant
            i <= constraints.len(),
            forall|j: int| 0 <= j < i ==> !on_rowid(#[trigger] constraints@[j]),
        decreases constraints.len() - i,
    {
        let c: ConstraintInfo = constraints[i];
        if c.usable && c.column_index == 0 && c.op == ConstraintOp::Eq {
            assert(on_rowid(constraints@[i as int]));
            return true;
        }
        i = i + 1;
    }
    false
}

/// The constraint that a cursor should test for one that was taken over with this value.
pub open spec fn as_tested(c: ConstraintInfo, arg: ArgView) -> RtreeConstraint {
    RtreeConstraint {
        i_coord: (c.column_index - 1) as usize,
        op: op_letter(c.op)->0,
        value: arg.real->0,
    }
}

proof fn lemma_one_more(cs: Seq<ConstraintInfo>, i: int)
    requires
        0 <= i < cs.len(),
    ensures
        cs.take(i + 1).drop_last() == cs.take(i),
        cs.take(i + 1).last() == cs[i],
        fixes_rowid(cs.take(i + 1)) == (fixes_rowid(cs.take(i)) || on_rowid(cs[i])),
{
    let more = cs.take(i + 1);
    let less = cs.take(i);
    assert(more.drop_last() =~= less);
    assert(more[i] == cs[i]);
    if fixes_rowid(less) {
        let j = choose|j: int| 0 <= j < less.len() && #[trigger] on_rowid(less[j]);
        assert(more[j] == less[j]);
    }
    if fixes_rowid(more) && !on_rowid(cs[i]) {
        let j = choose|j: int| 0 <= j < more.len() && #[trigger] on_rowid(more[j]);
        assert(less[j] == more[j]);
    }
    if on_rowid(cs[i]) {
        assert(on_rowid(more[i]));
    }
}

/// Every constraint on a coordinate that is taken over is one of the list, in its order: the one
/// behind those taken over before it.
pub proof fn lemma_place_of_coordinate(cs: Seq<ConstraintInfo>, i: int)
    requires
        0 <= i < cs.len(),
        on_coordinate(cs[i]),
    ensures
        coordinates(cs.take(i)).len() < coordinates(cs).len(),
        coordinates(cs)[coordinates(cs.take(i)).len() as int] == cs[i],
    decreases cs.len(),
{
    let less = cs.drop_last();
    if i < cs.len() - 1 {
        assert(less.take(i) =~= cs.take(i));
        lemma_place_of_coordinate(less, i);
    } else {
        assert(less =~= cs.take(i));
    }
}

/// Where the `k`-th constraint on a coordinate stands among all constraints.
pub proof fn lemma_source_of_coordinate(cs: Seq<ConstraintInfo>, k: int) -> (i: int)
    requires
        0 <= k < coordinates(cs).len(),
    ensures
        0 <= i < cs.len(),
        on_coordinate(cs[i]),
        cs[i] == coordinates(cs)[k],
        coordinates(cs.take(i)).len() == k,
    decreases cs.len(),
{
    let less = cs.drop_last();
    if on_coordinate(cs.last()) && k == coordinates(less).len() {
        assert(cs.take(cs.len() - 1) =~= less);
        cs.len() - 1
    } else {
        let i = lemma_source_of_coordinate(less, k);
        assert(less.take(i) =~= cs.take(i));
        i
    }
}

/// The argument that a plan asks for in place of a constraint is its own: no other constraint asks
/// for it, and it is one of those that are handed over.
pub proof fn lemma_arguments_have_no_gaps(cs: Seq<ConstraintInfo>, i: int, j: int)
    requires
        0 <= i < cs.len(),
        0 <= j < cs.len(),
        i != j,
        cs.len() < u32::MAX,
        usage(cs, i).argv_index is Some,
    ensures
        1 <= usage(cs, i).argv_index->0 <= asked(cs),
        usage(cs, j).argv_index != usage(cs, i).argv_index,
{
    lemma_usage(cs, i);
    if usage(cs, j).argv_index is Some {
        lemma_usage(cs, j);
        if on_coordinate(cs[i]) && on_coordinate(cs[j]) {
            if i < j {
                lemma_place_of_coordinate(cs.take(j), i);
                assert(cs.take(j).take(i) =~= cs.take(i));
            } else {
                lemma_place_of_coordinate(cs.take(i), j);
                assert(cs.take(i).take(j) =~= cs.take(j));
            }
        } else if on_rowid(cs[i]) && on_rowid(cs[j]) {
            if i < j {
                assert(on_rowid(cs.take(j)[i]));
            } else {
                assert(on_rowid(cs.take(i)[j]));
            }
        }
    }
}

/// The argument of a constraint that is taken over: the first one for the row id, and for the `k`-th
/// coordinate the one `k` places behind.
pub proof fn lemma_usage(cs: Seq<ConstraintInfo>, i: int)
    requires
        0 <= i < cs.len(),
        cs.len() < u32::MAX,
        usage(cs, i).argv_index is Some,
    ensures
        on_rowid(cs[i]) ==> fixes_rowid(cs) && usage(cs, i).argv_index == Some(1u32),
        on_coordinate(cs[i]) ==> ({
            let k = coordinates(cs.take(i)).len();
            &&& usage(cs, i).argv_index->0 == key_count(cs) + k + 1
            &&& k < coordinates(cs).len()
            &&& coordinates(cs)[k as int] == cs[i]
        }),
{
    if on_coordinate(cs[i]) {
        lemma_place_of_coordinate(cs, i);
        lemma_coordinates_are_few(cs);
    } else {
        assert(on_rowid(cs[i]));
    }
}

proof fn lemma_coordinates_are_few(cs: Seq<ConstraintInfo>)
    ensures
        coordinates(cs).len() <= cs.len(),
        forall|k: int|
            0 <= k < coordinates(cs).len() ==> on_coordinate(#[trigger] coordinates(cs)[k]),
    decreases cs.len(),
{
    if cs.len() > 0 {
        lemma_coordinates_are_few(cs.drop_last());
    }
}

/// The characters of the pairs.
proof fn lemma_pairs(taken: Seq<ConstraintInfo>)
    ensures
        pairs(taken).len() == 2 * taken.len(),
        forall|k: int|
            0 <= k < taken.len() ==> pairs(taken)[2 * k] == pair(#[trigger] taken[k])[0]
                && pairs(taken)[2 * k + 1] == pair(taken[k])[1],
    decreases taken.len(),
{
    if taken.len() > 0 {
        let less = taken.drop_last();
        lemma_pairs(less);
        assert forall|k: int| 0 <= k < taken.len() implies pairs(taken)[2 * k] == pair(
            #[trigger] taken[k],
        )[0] && pairs(taken)[2 * k + 1] == pair(taken[k])[1] by {
            if k < less.len() {
                assert(less[k] == taken[k]);
            }
        }
    }
}

/// The index string of a plan as bytes: the word for a lookup where the row id is fixed, then a
/// letter and a digit for each coordinate that is taken over. Without a row id it does not start
/// with that word.
pub proof fn lemma_index_bytes(cs: Seq<ConstraintInfo>)
    ensures
        ({
            let bytes = vstd::utf8::encode_utf8(index_text(cs));
            let taken = coordinates(cs);
            let rest = cursor::behind_word(bytes);
            &&& fixes_rowid(cs) ==> cursor::is_lookup(bytes) && spells(rest, taken)
            &&& !fixes_rowid(cs) ==> !cursor::is_lookup(bytes)
            &&& !fixes_rowid(cs) && taken.len() > 0 ==> spells(bytes, taken)
        }),
{
    let taken = coordinates(cs);
    let text = index_text(cs);
    let bytes = vstd::utf8::encode_utf8(text);
    lemma_coordinates_are_few(cs);
    lemma_pairs(taken);
    cursor::lemma_lookup_word();
    reveal_strlit("rowid_lookup");
    reveal_strlit("query");
    let word = "rowid_lookup"@;
    assert forall|i: int| 0 <= i < pairs(taken).len() implies '\0' <= #[trigger] pairs(taken)[i]
        <= '\u{7f}' by {
        let k = i / 2;
        assert(on_coordinate(taken[k]));
        assert(i == 2 * k || i == 2 * k + 1);
    }
    assert forall|i: int| 0 <= i < text.len() implies '\0' <= #[trigger] text[i] <= '\u{7f}' by {
        if fixes_rowid(cs) {
            if i >= word.len() {
                assert(text[i] == pairs(taken)[i - word.len()]);
            } else {
                assert(text[i] == word[i]);
            }
        } else if taken.len() > 0 {
            assert(text[i] == pairs(taken)[i]);
        }
    }
    assert(vstd::utf8::is_ascii_chars(text));
    vstd::utf8::is_ascii_chars_encode_utf8(text);
    let off: int = if fixes_rowid(cs) {
        word.len() as int
    } else {
        0
    };
    if fixes_rowid(cs) {
        assert(vstd::utf8::is_ascii_chars(word));
        vstd::utf8::is_ascii_chars_encode_utf8(word);
        assert forall|i: int| 0 <= i < word.len() implies bytes[i] == cursor::lookup_word()[i] by {
            assert(text[i] == word[i]);
        }
        assert(bytes.take(cursor::lookup_word().len() as int) =~= cursor::lookup_word());
    }
    if fixes_rowid(cs) || taken.len() > 0 {
        let part = bytes.skip(off);
        assert(part.len() == 2 * taken.len());
        assert forall|k: int| 0 <= k < taken.len() implies part[2 * k] == op_letter(
            (#[trigger] taken[k]).op,
        )->0 && part[2 * k + 1] == 0x30 + (taken[k].column_index - 1) by {
            assert(on_coordinate(taken[k]));
            assert(part[2 * k] == bytes[off + 2 * k] && part[2 * k + 1] == bytes[off + 2 * k + 1]);
            assert(text[off + 2 * k] == pairs(taken)[2 * k]);
            assert(text[off + 2 * k + 1] == pairs(taken)[2 * k + 1]);
        }
        if !fixes_rowid(cs) {
            assert(part =~= bytes);
        }
    }
    if !fixes_rowid(cs) {
        if cursor::is_lookup(bytes) {
            assert(bytes.take(12)[0] == bytes[0]);
            if taken.len() > 0 {
                assert(on_coordinate(taken[0]));
                let zero: int = 0;
                assert(text[2 * zero] == pair(taken[zero])[0]);
                assert(bytes[2 * zero] == text[2 * zero] as u8);
            } else {
                assert(text.len() == 5);
            }
        }
    }
}

/// The bytes are a letter and a digit for each constraint of a list.
pub open spec fn spells(bytes: Seq<u8>, taken: Seq<ConstraintInfo>) -> bool {
    &&& bytes.len() == 2 * taken.len()
    &&& forall|k: int| 0 <= k < taken.len() ==> on_coordinate(#[trigger] taken[k])
    &&& forall|k: int|
        0 <= k < taken.len() ==> bytes[2 * k] == op_letter((#[trigger] taken[k]).op)->0 && bytes[2
            * k + 1] == 0x30 + (taken[k].column_index - 1)
}

/// A row meets what a cursor reads of the bytes of a list of constraints if and only if it meets
/// every one of them whose argument is a number.
pub proof fn lemma_read_back(
    bytes: Seq<u8>,
    taken: Seq<ConstraintInfo>,
    args: Seq<ArgView>,
    k: int,
    known: Seq<RtreeConstraint>,
    row: CellView,
    n_dim2: nat,
)
    requires
        spells(bytes, taken),
        args.len() >= taken.len(),
        0 <= k <= taken.len(),
    ensures
        constraint::leaf_matches(cursor::constraints_from(bytes, args, k, known), row, n_dim2) == (
        constraint::leaf_matches(known, row, n_dim2) && forall|i: int|
            k <= i < taken.len() ==> is_met(#[trigger] taken[i], args[i], row, n_dim2)),
    decreases taken.len() - k,
{
    if k < taken.len() {
        assert(on_coordinate(taken[k]));
        assert(bytes[2 * k] == op_letter(taken[k].op)->0);
        let c = as_tested(taken[k], args[k]);
        let more = if args[k].real is Some {
            known.push(c)
        } else {
            known
        };
        lemma_read_back(bytes, taken, args, k + 1, more, row, n_dim2);
        assert(constraint::leaf_matches(more, row, n_dim2) == (constraint::leaf_matches(
            known,
            row,
            n_dim2,
        ) && is_met(taken[k], args[k], row, n_dim2))) by {
            if args[k].real is Some {
                assert(more[known.len() as int] == c);
                assert forall|i: int| 0 <= i < known.len() implies more[i] == known[i] by {}
            }
        }
    }
}

/// A row meets a constraint that was taken over with this argument. An argument that is not a number
/// leaves a coordinate free; one that is not an integer is the row id of no row.
pub open spec fn is_met(c: ConstraintInfo, arg: ArgView, row: CellView, n_dim2: nat) -> bool {
    if on_rowid(c) {
        arg.integer == Some(row.rowid)
    } else {
        arg.real is Some ==> as_tested(c, arg).judge_leaf(row, n_dim2) != constraint::NOT_WITHIN
    }
}

/// What a plan writes a cursor reads: where every argument of a coordinate is a number, the pairs of
/// the index string decode to one constraint for each coordinate that was taken over, with its
/// operator and its value.
pub proof fn lemma_plan_is_read_back(
    bytes: Seq<u8>,
    taken: Seq<ConstraintInfo>,
    args: Seq<ArgView>,
    k: int,
)
    requires
        spells(bytes, taken),
        args.len() == taken.len(),
        0 <= k <= taken.len(),
        forall|i: int| 0 <= i < args.len() ==> (#[trigger] args[i]).real is Some,
    ensures
        cursor::constraints_from(
            bytes,
            args,
            k,
            Seq::new(k as nat, |i: int| as_tested(taken[i], args[i])),
        ) == Seq::new(taken.len(), |i: int| as_tested(taken[i], args[i])),
    decreases taken.len() - k,
{
    if k < taken.len() {
        lemma_plan_is_read_back(bytes, taken, args, k + 1);
        let known = Seq::new(k as nat, |i: int| as_tested(taken[i], args[i]));
        assert(on_coordinate(taken[k]));
        assert(args[k].real is Some);
        assert(bytes[2 * k] == op_letter(taken[k].op)->0);
        assert(known.push(as_tested(taken[k], args[k])) =~= Seq::new(
            (k + 1) as nat,
            |i: int| as_tested(taken[i], args[i]),
        ));
    }
}

} // verus!
