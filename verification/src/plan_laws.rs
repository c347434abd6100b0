//! What a plan makes of each constraint that it is offered.

use vstd::prelude::*;
use crate::plan;
use crate::plan::{ConstraintInfo, ConstraintOp, ConstraintUsage};

verus! {

/// A usable constraint that gives the row id.
pub open spec fn gives_rowid(c: ConstraintInfo) -> bool {
    c.usable && c.column_index == 0 && c.op == ConstraintOp::Eq
}

/// A usable comparison of one of the ten columns behind the row id.
pub open spec fn compares_coordinate(c: ConstraintInfo) -> bool {
    c.usable && 1 <= c.column_index <= 10 && c.op != ConstraintOp::Other
}

/// How many of the first `n` constraints compare coordinates.
pub open spec fn compared(cs: Seq<ConstraintInfo>, n: int) -> nat
    decreases n,
{
    if n <= 0 {
        0
    } else if compares_coordinate(cs[n - 1]) {
        compared(cs, n - 1) + 1
    } else {
        compared(cs, n - 1)
    }
}

/// Some constraint gives the row id.
pub open spec fn some_gives_rowid(cs: Seq<ConstraintInfo>) -> bool {
    exists|j: int| 0 <= j < cs.len() && #[trigger] gives_rowid(cs[j])
}

proof fn lemma_compared(cs: Seq<ConstraintInfo>, n: int)
    requires
        0 <= n <= cs.len(),
    ensures
        plan::coordinates(cs.take(n)).len() == compared(cs, n),
        compared(cs, n) <= n,
    decreases n,
{
    if n > 0 {
        lemma_compared(cs, n - 1);
        assert(cs.take(n).drop_last() =~= cs.take(n - 1));
        assert(cs.take(n).last() == cs[n - 1]);
    } else {
        assert(cs.take(0) =~= Seq::empty());
    }
}

/// A constraint that is not usable is never taken over.
pub proof fn lemma_unusable_is_left_alone(cs: Seq<ConstraintInfo>, i: int)
    requires
        0 <= i < cs.len(),
        !cs[i].usable,
    ensures
        plan::usage(cs, i) == (ConstraintUsage { argv_index: None, omit: false }),
{
}

/// Of each constraint: the first usable one that gives the row id is taken over as the first
/// argument; a usable comparison of a coordinate is taken over as the argument behind the row id and
/// the comparisons before it; any other is left alone.
pub proof fn lemma_what_becomes_of_a_constraint(cs: Seq<ConstraintInfo>, i: int)
    requires
        0 <= i < cs.len(),
        cs.len() < u32::MAX,
    ensures
        ({
            let u = plan::usage(cs, i);
            let first = forall|j: int| 0 <= j < i ==> !gives_rowid(#[trigger] cs[j]);
            let key: int = if some_gives_rowid(cs) {
                1
            } else {
                0
            };
            &&& gives_rowid(cs[i]) && first ==> u == (ConstraintUsage {
                argv_index: Some(1),
                omit: true,
            })
            &&& gives_rowid(cs[i]) && !first ==> u == (ConstraintUsage {
                argv_index: None,
                omit: false,
            })
            &&& compares_coordinate(cs[i]) ==> u.omit && u.argv_index is Some
                && u.argv_index->0 == key + compared(cs, i) + 1
            &&& !gives_rowid(cs[i]) && !compares_coordinate(cs[i]) ==> u == (ConstraintUsage {
                argv_index: None,
                omit: false,
            })
        }),
{
    lemma_compared(cs, i);
    let before = cs.take(i);
    let first = forall|j: int| 0 <= j < i ==> !gives_rowid(#[trigger] cs[j]);
    if plan::fixes_rowid(before) {
        let j = choose|j: int| 0 <= j < before.len() && #[trigger] plan::on_rowid(before[j]);
        assert(gives_rowid(cs[j]));
    } else if !first {
        let j = choose|j: int| 0 <= j < i && gives_rowid(#[trigger] cs[j]);
        assert(plan::on_rowid(before[j]));
    }
    lemma_rowid_plans(cs);
}

/// A plan is one for a row id if and only if some usable constraint is an equality on column 0.
pub proof fn lemma_rowid_plans(cs: Seq<ConstraintInfo>)
    ensures
        plan::fixes_rowid(cs) <==> some_gives_rowid(cs),
{
    if plan::fixes_rowid(cs) {
        let j = choose|j: int| 0 <= j < cs.len() && #[trigger] plan::on_rowid(cs[j]);
        assert(gives_rowid(cs[j]));
    }
    if some_gives_rowid(cs) {
        let j = choose|j: int| 0 <= j < cs.len() && #[trigger] gives_rowid(cs[j]);
        assert(plan::on_rowid(cs[j]));
    }
}

/// The letters of the operators.
pub proof fn lemma_operator_letters(op: ConstraintOp)
    ensures
        op == ConstraintOp::Eq ==> plan::op_letter(op) == Some(0x41u8),
        op == ConstraintOp::Le ==> plan::op_letter(op) == Some(0x42u8),
        op == ConstraintOp::Lt ==> plan::op_letter(op) == Some(0x43u8),
        op == ConstraintOp::Ge ==> plan::op_letter(op) == Some(0x44u8),
        op == ConstraintOp::Gt ==> plan::op_letter(op) == Some(0x45u8),
        op == ConstraintOp::Other ==> plan::op_letter(op) is None,
{
}

proof fn lemma_pair_places(taken: Seq<ConstraintInfo>, k: int)
    requires
        0 <= k < taken.len(),
    ensures
        plan::pairs(taken).len() == 2 * taken.len(),
        plan::pairs(taken)[2 * k] == plan::pair(taken[k])[0],
        plan::pairs(taken)[2 * k + 1] == plan::pair(taken[k])[1],
    decreases taken.len(),
{
    let less = taken.drop_last();
    lemma_pairs_len(taken);
    lemma_pairs_len(less);
    if k < less.len() {
        lemma_pair_places(less, k);
    }
}

proof fn lemma_pairs_len(taken: Seq<ConstraintInfo>)
    ensures
        plan::pairs(taken).len() == 2 * taken.len(),
    decreases taken.len(),
{
    if taken.len() > 0 {
        lemma_pairs_len(taken.drop_last());
    }
}

/// The index string: it starts with the word for a lookup where some constraint gives the row id, and
/// then holds, for each comparison of a coordinate in their order, the letter of the operator and the
/// digit of the coordinate. Where nothing is taken over it is the word for a query.
pub proof fn lemma_index_string(cs: Seq<ConstraintInfo>)
    ensures
        ({
            let text = plan::index_text(cs);
            let n = compared(cs, cs.len() as int);
            let off: int = if some_gives_rowid(cs) {
                12
            } else {
                0
            };
            &&& some_gives_rowid(cs) ==> text.take(12) == "rowid_lookup"@
            &&& some_gives_rowid(cs) || n > 0 ==> text.len() == off + 2 * n
            &&& !some_gives_rowid(cs) && n == 0 ==> text == "query"@
            &&& forall|i: int|
                0 <= i < cs.len() && compares_coordinate(#[trigger] cs[i]) ==> {
                    let at = off + 2 * compared(cs, i);
                    &&& at + 1 < text.len()
                    &&& text[at] == (match cs[i].op {
                        ConstraintOp::Eq => 'A',
                        ConstraintOp::Le => 'B',
                        ConstraintOp::Lt => 'C',
                        ConstraintOp::Ge => 'D',
                        _ => 'E',
                    })
                    &&& text[at + 1] as u32 == '0' as u32 + (cs[i].column_index - 1)
                }
        }),
{
    reveal_strlit("rowid_lookup");
    lemma_rowid_plans(cs);
    let text = plan::index_text(cs);
    let taken = plan::coordinates(cs);
    let off: int = if some_gives_rowid(cs) {
        12
    } else {
        0
    };
    lemma_compared(cs, cs.len() as int);
    assert(cs.take(cs.len() as int) =~= cs);
    lemma_pairs_len(taken);
    if some_gives_rowid(cs) {
        assert(text.take(12) =~= "rowid_lookup"@);
    }
    assert forall|i: int| 0 <= i < cs.len() && compares_coordinate(#[trigger] cs[i]) implies {
        let at = off + 2 * compared(cs, i);
        &&& at + 1 < text.len()
        &&& text[at] == (match cs[i].op {
            ConstraintOp::Eq => 'A',
            ConstraintOp::Le => 'B',
            ConstraintOp::Lt => 'C',
            ConstraintOp::Ge => 'D',
            _ => 'E',
        })
        &&& text[at + 1] as u32 == '0' as u32 + (cs[i].column_index - 1)
    } by {
        lemma_compared(cs, i);
        plan::lemma_place_of_coordinate(cs, i);
        let k = compared(cs, i) as int;
        assert(taken[k] == cs[i]);
        lemma_pair_places(taken, k);
        assert(text[off + 2 * k] == plan::pairs(taken)[2 * k]);
        assert(text[off + 2 * k + 1] == plan::pairs(taken)[2 * k + 1]);
    }
}

} // verus!
