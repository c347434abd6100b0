//! The codes that cursors give, and that dropping a table succeeds.

use vstd::prelude::*;
use crate::cursor;
use crate::cursor::{CursorView, Visit};
use crate::query_laws;
use crate::store::{NodeRowView, Stop, StoreView, WriteView};
use crate::store_laws;
use crate::store_laws::known;
use crate::table::TableView;
use crate::value::{ArgView, ResultCode};

verus! {

/// Going on ends on a row with OK, or behind the last row with the code for that; any other code is
/// one of an error.
proof fn lemma_codes_of_going_on(c: CursorView, s: StoreView, missed: ResultCode)
    ensures
        c.advance(s, missed) matches (Ok(code), c2, s2) ==> {
            ||| code == ResultCode::Error
            ||| code == ResultCode::Corrupt && c2.at_eof
            ||| code == ResultCode::OK && !c2.at_eof
            ||| code == missed && c2.at_eof
        },
    decreases cursor::weight(c.todo),
{
    reveal(CursorView::advance);
    if c.ready.len() == 0 && c.todo.len() > 0 {
        let levels = c.todo.last().levels;
        let d = CursorView { at_eof: true, todo: c.todo.drop_last(), ..c };
        match d.load_node(s, c.todo.last().nodeno) {
            (Err(stop), s1) => {},
            (Ok(None), s1) => {
                cursor::lemma_visit_leads_on(c.todo, Seq::empty(), Seq::empty(), 0);
                lemma_codes_of_going_on(d, s1, missed);
            },
            (Ok(Some(n)), s1) => {
                let cells = d.table().cells(n.data);
                cursor::lemma_visit_leads_on(c.todo, cells, c.constraints, c.n_dim2 as nat);
                match d.table().is_leaf(s1, n) {
                    (Err(stop), s2) => {},
                    (Ok(true), s2) => {
                        let e = CursorView {
                            ready: cursor::hits(cells, c.constraints, c.n_dim2 as nat),
                            ..d
                        };
                        lemma_codes_of_going_on(e, s2, missed);
                    },
                    (Ok(false), s2) => {
                        if levels != 0 {
                            let e = CursorView {
                                todo: d.todo + cursor::visits(
                                    cells,
                                    c.constraints,
                                    c.n_dim2 as nat,
                                    (levels - 1) as u64,
                                ),
                                ..d
                            };
                            lemma_codes_of_going_on(e, s2, missed);
                        }
                    },
                }
            },
        }
    }
}

/// A query that starts well gives OK, whether it finds a row or not. Going on gives OK on a row and EOF
/// behind the last one. Any other code is one of an error.
pub proof fn lemma_codes_of_a_query(
    c: CursorView,
    s: StoreView,
    args: Seq<ArgView>,
    idx: Seq<char>,
)
    ensures
        c.filter(s, args, idx).0 matches Ok(code) ==> code == ResultCode::OK || code
            == ResultCode::Error || code == ResultCode::Corrupt,
        c.next(s).0 matches Ok(code) ==> {
            &&& code == ResultCode::OK ==> !c.next(s).1.at_eof
            &&& code == ResultCode::EOF ==> c.next(s).1.at_eof
            &&& code == ResultCode::OK || code == ResultCode::EOF || code == ResultCode::Error
                || code == ResultCode::Corrupt
        },
{
    lemma_codes_of_going_on(c, s, ResultCode::EOF);
    let bytes = vstd::utf8::encode_utf8(idx);
    if !(cursor::is_lookup(bytes) && args.len() > 0) {
        let d = CursorView {
            constraints: cursor::constraints_from(bytes, args, 0, Seq::empty()),
            todo: seq![Visit { nodeno: 1, levels: cursor::RTREE_QUERY_LEVELS }],
            ..c.rewound()
        };
        lemma_codes_of_going_on(d, s, ResultCode::OK);
    }
}

/// A query of a table whose root is known not to be there is at its end at once.
pub proof fn lemma_query_of_nothing(c: CursorView, s: StoreView, args: Seq<ArgView>, idx: Seq<char>)
    requires
        known(s.nodes, 1) == Some(NodeRowView::Missing) || !s.connected,
        query_laws::is_scan(args, idx),
    ensures
        ({
            let (code, c2, s2) = c.filter(s, args, idx);
            &&& code == Ok::<ResultCode, Stop>(ResultCode::OK)
            &&& c2.at_eof
            &&& s2 == s
            &&& c2.next(s).0 == Ok::<ResultCode, Stop>(ResultCode::EOF)
            &&& c2.next(s).1.at_eof
        }),
{
    reveal(CursorView::advance);
    let bytes = vstd::utf8::encode_utf8(idx);
    let d = CursorView {
        constraints: cursor::constraints_from(bytes, args, 0, Seq::empty()),
        todo: seq![Visit { nodeno: 1, levels: cursor::RTREE_QUERY_LEVELS }],
        ..c.rewound()
    };
    let e = CursorView { at_eof: true, todo: d.todo.drop_last(), ..d };
    assert(d.todo.drop_last().len() == 0);
    assert(d.advance(s, ResultCode::OK) == e.advance(s, ResultCode::OK));
    assert(e.advance(s, ResultCode::OK) == (Ok::<ResultCode, Stop>(ResultCode::OK), e, s));
}

/// Dropping a table succeeds once the three changes that it makes do, and fails with an error where one
/// of them fails.
pub proof fn lemma_destroy_succeeds(t: TableView, s: StoreView)
    requires
        s.connected,
        s.log.len() + 3 <= s.acks.len(),
    ensures
        ({
            let n = s.log.len() as int;
            if s.acks[n] && s.acks[n + 1] && s.acks[n + 2] {
                t.destroy(s).0 == Ok::<(), Stop>(())
            } else {
                t.destroy(s).0 == Err::<(), Stop>(Stop::Code(ResultCode::Error))
            }
        }),
{
    let ws = seq![WriteView::DropNodeTable, WriteView::DropRowidTable, WriteView::DropParentTable];
    let w1 = ws.skip(1);
    let w2 = w1.skip(1);
    let s1 = s.issue(ws[0]).1;
    let s2 = s1.issue(w1[0]).1;
    let s3 = s2.issue(w2[0]).1;
    store_laws::lemma_changes_in_turn(s, ws);
    store_laws::lemma_changes_in_turn(s1, w1);
    store_laws::lemma_changes_in_turn(s2, w2);
    store_laws::lemma_changes_in_turn(s3, w2.skip(1));
}

} // verus!
