//! Which statement is run with which parameters for each change and each request.

use vstd::prelude::*;
use crate::sql;
use crate::store::{DivisionView, RequestView, WriteView};
use crate::coord::Coord;
use crate::text;
use crate::value::ValueView;

verus! {

/// The tables that a table keeps its tree in are named after it.
pub proof fn lemma_shadow_table_names(name: Seq<char>)
    ensures
        sql::node_table(name) == name + "_node"@,
        sql::rowid_table(name) == name + "_rowid"@,
        sql::parent_table(name) == name + "_parent"@,
{
}

/// There is one parameter mark for each auxiliary column.
pub proof fn lemma_marks(a: nat, b: nat)
    ensures
        sql::marks(0) == Seq::<char>::empty(),
        sql::marks(1) == seq![',', ' ', '?'],
        sql::marks(a + b) == sql::marks(a) + sql::marks(b),
    decreases b,
{
    reveal_strlit(", ?");
    reveal_with_fuel(sql::marks, 2);
    assert(", ?"@ =~= seq![',', ' ', '?']);
    assert(sql::marks(1) =~= seq![',', ' ', '?']);
    if b == 0 {
        assert(sql::marks(a) + sql::marks(b) =~= sql::marks(a));
    } else {
        lemma_marks(a, (b - 1) as nat);
        assert(sql::marks(a + b) =~= sql::marks(a) + sql::marks(b));
    }
}

/// The shadow tables are created and dropped under their names.
pub proof fn lemma_table_statements(name: Seq<char>, aux: Seq<Seq<char>>)
    ensures
        sql::change_text(name, aux, WriteView::CreateNodeTable) == "CREATE TABLE "@ + (name
            + "_node"@) + " (nodeno INTEGER PRIMARY KEY, data BLOB)"@,
        sql::change_text(name, aux, WriteView::CreateRowidTable) == "CREATE TABLE "@ + (name
            + "_rowid"@) + " (rowid INTEGER PRIMARY KEY, nodeno INTEGER"@ + text::quoted_columns(
            aux,
            " TEXT"@,
        ) + ")"@,
        sql::change_text(name, aux, WriteView::CreateParentTable) == "CREATE TABLE "@ + (name
            + "_parent"@) + " (nodeno INTEGER PRIMARY KEY, parentnode INTEGER)"@,
        sql::change_text(name, aux, WriteView::DropNodeTable) == "DROP TABLE IF EXISTS "@ + (name
            + "_node"@),
        sql::change_text(name, aux, WriteView::DropRowidTable) == "DROP TABLE IF EXISTS "@ + (name
            + "_rowid"@),
        sql::change_text(name, aux, WriteView::DropParentTable) == "DROP TABLE IF EXISTS "@ + (name
            + "_parent"@),
        sql::change_params(WriteView::CreateNodeTable).len() == 0,
        sql::change_params(WriteView::CreateRowidTable).len() == 0,
        sql::change_params(WriteView::CreateParentTable).len() == 0,
        sql::change_params(WriteView::DropNodeTable).len() == 0,
        sql::change_params(WriteView::DropRowidTable).len() == 0,
        sql::change_params(WriteView::DropParentTable).len() == 0,
{
}

/// A page, a row with its auxiliary columns, and the parent of a node are stored under their numbers,
/// in place of what was stored before; a row that moves gets another node and keeps the rest.
pub proof fn lemma_store_statements(
    name: Seq<char>,
    aux: Seq<Seq<char>>,
    key: i64,
    number: i64,
    data: Seq<u8>,
    values: Seq<ValueView>,
)
    ensures
        ({
            let w = WriteView::Node { nodeno: key, data };
            &&& sql::change_text(name, aux, w) == "INSERT OR REPLACE INTO "@ + (name + "_node"@)
                + " (nodeno, data) VALUES (?, ?)"@
            &&& sql::change_params(w).len() == 2
            &&& sql::change_params(w)[0] == ValueView::Integer(key)
            &&& sql::change_params(w)[1] == ValueView::Blob(data)
        }),
        ({
            let w = WriteView::Rowid { rowid: key, nodeno: number, aux: values };
            &&& sql::change_text(name, aux, w) == "INSERT OR REPLACE INTO "@ + (name + "_rowid"@)
                + " (rowid, nodeno"@ + text::quoted_columns(aux, ""@) + ") VALUES (?, ?"@
                + sql::marks(aux.len()) + ")"@
            &&& sql::change_params(w).len() == 2 + values.len()
            &&& sql::change_params(w)[0] == ValueView::Integer(key)
            &&& sql::change_params(w)[1] == ValueView::Integer(number)
            &&& forall|i: int|
                0 <= i < values.len() ==> sql::change_params(w)[2 + i] == #[trigger] values[i]
        }),
        ({
            let w = WriteView::MoveRow { rowid: key, nodeno: number };
            &&& sql::change_text(name, aux, w) == "UPDATE "@ + (name + "_rowid"@)
                + " SET nodeno = ? WHERE rowid = ?"@
            &&& sql::change_params(w).len() == 2
            &&& sql::change_params(w)[0] == ValueView::Integer(number)
            &&& sql::change_params(w)[1] == ValueView::Integer(key)
        }),
        ({
            let w = WriteView::Parent { nodeno: key, parentnode: number };
            &&& sql::change_text(name, aux, w) == "INSERT OR REPLACE INTO "@ + (name + "_parent"@)
                + " (nodeno, parentnode) VALUES (?, ?)"@
            &&& sql::change_params(w).len() == 2
            &&& sql::change_params(w)[0] == ValueView::Integer(key)
            &&& sql::change_params(w)[1] == ValueView::Integer(number)
        }),
{
}

/// A page, a row and the parent of a node are deleted by their numbers.
pub proof fn lemma_delete_statements(name: Seq<char>, aux: Seq<Seq<char>>, key: i64)
    ensures
        ({
            let w = WriteView::DeleteNode { nodeno: key };
            &&& sql::change_text(name, aux, w) == "DELETE FROM "@ + (name + "_node"@)
                + " WHERE nodeno = ?"@
            &&& sql::change_params(w).len() == 1
            &&& sql::change_params(w)[0] == ValueView::Integer(key)
        }),
        ({
            let w = WriteView::DeleteRowid { rowid: key };
            &&& sql::change_text(name, aux, w) == "DELETE FROM "@ + (name + "_rowid"@)
                + " WHERE rowid = ?"@
            &&& sql::change_params(w).len() == 1
            &&& sql::change_params(w)[0] == ValueView::Integer(key)
        }),
        ({
            let w = WriteView::DeleteParent { nodeno: key };
            &&& sql::change_text(name, aux, w) == "DELETE FROM "@ + (name + "_parent"@)
                + " WHERE nodeno = ?"@
            &&& sql::change_params(w).len() == 1
            &&& sql::change_params(w)[0] == ValueView::Integer(key)
        }),
{
}

/// A request for a row is answered by a query of the table that the row is stored in, by its number.
/// The other requests are not answered by a query.
pub proof fn lemma_queries(
    name: Seq<char>,
    aux: Seq<Seq<char>>,
    key: i64,
    coords: Seq<Coord>,
    divisions: Seq<DivisionView>,
    w: WriteView,
)
    ensures
        sql::query_text(name, aux, RequestView::Node(key)) == Some(
            ("SELECT data FROM "@ + (name + "_node"@) + " WHERE nodeno = ?"@, key),
        ),
        sql::query_text(name, aux, RequestView::Parent(key)) == Some(
            ("SELECT parentnode FROM "@ + (name + "_parent"@) + " WHERE nodeno = ?"@, key),
        ),
        sql::query_text(name, aux, RequestView::RowidNode(key)) == Some(
            ("SELECT nodeno FROM "@ + (name + "_rowid"@) + " WHERE rowid = ?"@, key),
        ),
        sql::query_text(name, aux, RequestView::RowidAux(key)) == Some(
            (
                "SELECT "@ + text::quoted_list(aux) + " FROM "@ + (name + "_rowid"@)
                    + " WHERE rowid = ?"@,
                key,
            ),
        ),
        sql::query_text(name, aux, RequestView::Area(coords)) is None,
        sql::query_text(name, aux, RequestView::Rating(divisions)) is None,
        sql::query_text(name, aux, RequestView::Write(w)) is None,
{
}

} // verus!
