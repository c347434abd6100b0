//! The statements that read and change the shadow tables.

use vstd::prelude::*;
use crate::bytes;
use crate::cursor::RtreeCursor;
use crate::module;
use crate::store::{Request, RequestView, Write, WriteView};
use crate::table;
use crate::table::RtreeTable;
use crate::text;
use crate::value;
use crate::value::{Value, ValueView};

verus! {

/// The table of the pages.
pub open spec fn node_table(name: Seq<char>) -> Seq<char> {
    name + "_node"@
}

/// The table of the rows.
pub open spec fn rowid_table(name: Seq<char>) -> Seq<char> {
    name + "_rowid"@
}

/// The table of the parents.
pub open spec fn parent_table(name: Seq<char>) -> Seq<char> {
    name + "_parent"@
}

/// One more parameter mark for each of `n` columns.
pub open spec fn marks(n: nat) -> Seq<char>
    decreases n,
{
    if n == 0 {
        Seq::empty()
    } else {
        marks((n - 1) as nat) + ", ?"@
    }
}

/// The statement that makes a change, for the table of this name with these auxiliary columns.
pub open spec fn change_text(name: Seq<char>, aux: Seq<Seq<char>>, w: WriteView) -> Seq<char> {
    match w {
        WriteView::CreateNodeTable => "CREATE TABLE "@ + node_table(name)
            + " (nodeno INTEGER PRIMARY KEY, data BLOB)"@,
        WriteView::CreateRowidTable => "CREATE TABLE "@ + rowid_table(name)
            + " (rowid INTEGER PRIMARY KEY, nodeno INTEGER"@ + text::quoted_columns(aux, " TEXT"@)
            + ")"@,
        WriteView::CreateParentTable => "CREATE TABLE "@ + parent_table(name)
            + " (nodeno INTEGER PRIMARY KEY, parentnode INTEGER)"@,
        WriteView::DropNodeTable => "DROP TABLE IF EXISTS "@ + node_table(name),
        WriteView::DropRowidTable => "DROP TABLE IF EXISTS "@ + rowid_table(name),
        WriteView::DropParentTable => "DROP TABLE IF EXISTS "@ + parent_table(name),
        WriteView::Node { nodeno, data } => "INSERT OR REPLACE INTO "@ + node_table(name)
            + " (nodeno, data) VALUES (?, ?)"@,
        WriteView::Rowid { rowid, nodeno, aux: values } => "INSERT OR REPLACE INTO "@ + rowid_table(
            name,
        ) + " (rowid, nodeno"@ + text::quoted_columns(aux, ""@) + ") VALUES (?, ?"@ + marks(
            aux.len(),
        ) + ")"@,
        WriteView::MoveRow { rowid, nodeno } => "UPDATE "@ + rowid_table(name)
            + " SET nodeno = ? WHERE rowid = ?"@,
        WriteView::Parent { nodeno, parentnode } => "INSERT OR REPLACE INTO "@ + parent_table(name)
            + " (nodeno, parentnode) VALUES (?, ?)"@,
        WriteView::DeleteNode { nodeno } => "DELETE FROM "@ + node_table(name)
            + " WHERE nodeno = ?"@,
        WriteView::DeleteRowid { rowid } => "DELETE FROM "@ + rowid_table(name)
            + " WHERE rowid = ?"@,
        WriteView::DeleteParent { nodeno } => "DELETE FROM "@ + parent_table(name)
            + " WHERE nodeno = ?"@,
    }
}

/// The parameters that the statement of a change is given.
pub open spec fn change_params(w: WriteView) -> Seq<ValueView> {
    match w {
        WriteView::Node { nodeno, data } => seq![
            ValueView::Integer(nodeno),
            ValueView::Blob(data),
        ],
        WriteView::Rowid { rowid, nodeno, aux } => seq![
            ValueView::Integer(rowid),
            ValueView::Integer(nodeno),
        ] + aux,
        WriteView::MoveRow { rowid, nodeno } => seq![
            ValueView::Integer(nodeno),
            ValueView::Integer(rowid),
        ],
        WriteView::Parent { nodeno, parentnode } => seq![
            ValueView::Integer(nodeno),
            ValueView::Integer(parentnode),
        ],
        WriteView::DeleteNode { nodeno } => seq![ValueView::Integer(nodeno)],
        WriteView::DeleteRowid { rowid } => seq![ValueView::Integer(rowid)],
        WriteView::DeleteParent { nodeno } => seq![ValueView::Integer(nodeno)],
        _ => Seq::empty(),
    }
}

/// The query that answers a request for a row, and the number that it is given. The other requests
/// are not answered by a query.
pub open spec fn query_text(name: Seq<char>, aux: Seq<Seq<char>>, request: RequestView) -> Option<
    (Seq<char>, i64),
> {
    match request {
        RequestView::Node(n) => Some(
            ("SELECT data FROM "@ + node_table(name) + " WHERE nodeno = ?"@, n),
        ),
        RequestView::Parent(n) => Some(
            ("SELECT parentnode FROM "@ + parent_table(name) + " WHERE nodeno = ?"@, n),
        ),
        RequestView::RowidNode(r) => Some(
            ("SELECT nodeno FROM "@ + rowid_table(name) + " WHERE rowid = ?"@, r),
        ),
        RequestView::RowidAux(r) => Some(
            (
                "SELECT "@ + text::quoted_list(aux) + " FROM "@ + rowid_table(name)
                    + " WHERE rowid = ?"@,
                r,
            ),
        ),
        _ => None,
    }
}

/// `head`, the table of this name with this suffix, and `tail`.
fn on_table(head: &str, name: &str, suffix: &str, tail: &str) -> (r: String)
    ensures
        r@ == head@ + (name@ + suffix@) + tail@,
{
    let mut out: String = head.to_owned();
    out.append(name);
    out.append(suffix);
    out.append(tail);
    assert(out@ =~= head@ + (name@ + suffix@) + tail@);
    out
}

/// The quoted names with commas between them.
fn quote_list(names: &Vec<String>) -> (r: String)
    ensures
        r@ == text::quoted_list(table::string_views(names@)),
{
    let ghost all = table::string_views(names@);
    if names.len() == 0 {
        let out: String = "".to_owned();
        proof {
            reveal_strlit("");
        }
        assert(out@ =~= text::quoted_list(all));
        return out;
    }
    let mut out: String = text::quote_sql_ident(names[0].as_str());
    let mut i: usize = 1;
    assert(all.take(1).len() == 1 && all.take(1)[0] == names@[0]@);
    while i < names.len()
        invariant
            all == table::string_views(names@),
            1 <= i <= names.len(),
            out@ == text::quoted_list(all.take(i as int)),
        decreases names.len() - i,
    {
        out.append(", ");
        out.append(text::quote_sql_ident(names[i].as_str()).as_str());
        proof {
            assert(all.take(i + 1).drop_last() =~= all.take(i as int));
            assert(all.take(i + 1).last() == names@[i as int]@);
        }
        i = i + 1;
    }
    assert(all.take(names.len() as int) =~= all);
    out
}

/// Appends a parameter mark for each of `n` columns.
fn append_marks(out: &mut String, n: usize)
    ensures
        final(out)@ == old(out)@ + marks(n as nat),
{
    let mut i: usize = 0;
    assert(out@ =~= old(out)@ + marks(0));
    while i < n
        invariant
            i <= n,
            out@ == old(out)@ + marks(i as nat),
        decreases n - i,
    {
        let ghost before = out@;
        out.append(", ?");
        i = i + 1;
        assert(out@ =~= old(out)@ + marks(i as nat));
    }
}

/// The statement that makes a change of the shadow tables of a table.
pub fn change_sql(table_name: &str, aux_columns: &Vec<String>, w: &Write) -> (r: String)
    ensures
        r@ == change_text(table_name@, table::string_views(aux_columns@), w@),
{
    proof {
        reveal_strlit("");
        assert(""@ =~= Seq::empty());
    }
    let ghost aux = table::string_views(aux_columns@);
    match w {
        Write::CreateNodeTable => on_table(
            "CREATE TABLE ",
            table_name,
            "_node",
            " (nodeno INTEGER PRIMARY KEY, data BLOB)",
        ),
        Write::CreateRowidTable => {
            let mut out: String = on_table(
                "CREATE TABLE ",
                table_name,
                "_rowid",
                " (rowid INTEGER PRIMARY KEY, nodeno INTEGER",
            );
            module::append_columns(&mut out, aux_columns, " TEXT");
            out.append(")");
            out
        },
        Write::CreateParentTable => on_table(
            "CREATE TABLE ",
            table_name,
            "_parent",
            " (nodeno INTEGER PRIMARY KEY, parentnode INTEGER)",
        ),
        Write::DropNodeTable => {
            let out: String = on_table("DROP TABLE IF EXISTS ", table_name, "_node", "");
            assert(out@ =~= change_text(table_name@, aux, w@));
            out
        },
        Write::DropRowidTable => {
            let out: String = on_table("DROP TABLE IF EXISTS ", table_name, "_rowid", "");
            assert(out@ =~= change_text(table_name@, aux, w@));
            out
        },
        Write::DropParentTable => {
            let out: String = on_table("DROP TABLE IF EXISTS ", table_name, "_parent", "");
            assert(out@ =~= change_text(table_name@, aux, w@));
            out
        },
        Write::Node { .. } => on_table(
            "INSERT OR REPLACE INTO ",
            table_name,
            "_node",
            " (nodeno, data) VALUES (?, ?)",
        ),
        Write::Rowid { .. } => {
            let mut out: String = on_table(
                "INSERT OR REPLACE INTO ",
                table_name,
                "_rowid",
                " (rowid, nodeno",
            );
            module::append_columns(&mut out, aux_columns, "");
            out.append(") VALUES (?, ?");
            append_marks(&mut out, aux_columns.len());
            out.append(")");
            out
        },
        Write::MoveRow { .. } => on_table(
            "UPDATE ",
            table_name,
            "_rowid",
            " SET nodeno = ? WHERE rowid = ?",
        ),
        Write::Parent { .. } => on_table(
            "INSERT OR REPLACE INTO ",
            table_name,
            "_parent",
            " (nodeno, parentnode) VALUES (?, ?)",
        ),
        Write::DeleteNode { .. } => on_table(
            "DELETE FROM ",
            table_name,
            "_node",
            " WHERE nodeno = ?",
        ),
        Write::DeleteRowid { .. } => on_table(
            "DELETE FROM ",
            table_name,
            "_rowid",
            " WHERE rowid = ?",
        ),
        Write::DeleteParent { .. } => on_table(
            "DELETE FROM ",
            table_name,
            "_parent",
            " WHERE nodeno = ?",
        ),
    }
}

/// A list of two numbers.
fn two_numbers(a: i64, b: i64) -> (r: Vec<Value>)
    ensures
        value::value_views(r@) == seq![ValueView::Integer(a), ValueView::Integer(b)],
{
    let mut out: Vec<Value> = Vec::new();
    out.push(Value::Integer(a));
    out.push(Value::Integer(b));
    assert(value::value_views(out@) =~= seq![ValueView::Integer(a), ValueView::Integer(b)]);
    out
}

/// A list of one number.
fn one_number(a: i64) -> (r: Vec<Value>)
    ensures
        value::value_views(r@) == seq![ValueView::Integer(a)],
{
    let mut out: Vec<Value> = Vec::new();
    out.push(Value::Integer(a));
    assert(value::value_views(out@) =~= seq![ValueView::Integer(a)]);
    out
}

/// The parameters of the statement that makes a change.
pub fn change_values(w: &Write) -> (r: Vec<Value>)
    ensures
        value::value_views(r@) == change_params(w@),
{
    match w {
        Write::Node { nodeno, data } => {
            let mut out: Vec<Value> = one_number(*nodeno);
            let ghost before = out@;
            out.push(Value::Blob(bytes::copy_bytes(data)));
            assert(before.len() == value::value_views(before).len());
            assert(value::value_views(before)[0] == before[0]@);
            assert(value::value_views(out@) =~= change_params(w@));
            out
        },
        Write::Rowid { rowid, nodeno, aux } => {
            let mut out: Vec<Value> = two_numbers(*rowid, *nodeno);
            let ghost before = out@;
            let mut copied: Vec<Value> = value::copy_values(aux);
            let ghost tail = copied@;
            out.append(&mut copied);
            proof {
                assert(before.len() == value::value_views(before).len());
                assert(value::value_views(before)[0] == before[0]@);
                assert(value::value_views(before)[1] == before[1]@);
                assert(tail.len() == value::value_views(tail).len());
                assert(aux@.len() == value::value_views(aux@).len());
                assert(value::value_views(out@) =~= change_params(w@)) by {
                    assert forall|i: int| 0 <= i < aux@.len() implies #[trigger] out@[i + 2]@
                        == aux@[i]@ by {
                        assert(value::value_views(aux@)[i] == aux@[i]@);
                        assert(value::value_views(tail)[i] == tail[i]@);
                    }
                    assert forall|i: int| 0 <= i < out@.len() implies #[trigger] out@[i]@
                        == change_params(w@)[i] by {
                        if i >= 2 {
                            assert(out@[(i - 2) + 2]@ == aux@[i - 2]@);
                        }
                    }
                }
            }
            out
        },
        Write::MoveRow { rowid, nodeno } => two_numbers(*nodeno, *rowid),
        Write::Parent { nodeno, parentnode } => two_numbers(*nodeno, *parentnode),
        Write::DeleteNode { nodeno } => one_number(*nodeno),
        Write::DeleteRowid { rowid } => one_number(*rowid),
        Write::DeleteParent { nodeno } => one_number(*nodeno),
        _ => {
            let out: Vec<Value> = Vec::new();
            assert(value::value_views(out@) =~= Seq::empty());
            out
        },
    }
}

/// The query that answers a request, and the number that it is given.
pub fn query_sql(table_name: &str, aux_columns: &Vec<String>, request: &Request) -> (r: Option<
    (String, i64),
>)
    ensures
        match r {
            Some((sql, number)) => query_text(
                table_name@,
                table::string_views(aux_columns@),
                request@,
            ) == Some((sql@, number)),
            None => query_text(table_name@, table::string_views(aux_columns@), request@) is None,
        },
{
    match request {
        Request::Node(n) => Some(
            (on_table("SELECT data FROM ", table_name, "_node", " WHERE nodeno = ?"), *n),
        ),
        Request::Parent(n) => Some(
            (on_table("SELECT parentnode FROM ", table_name, "_parent", " WHERE nodeno = ?"), *n),
        ),
        Request::RowidNode(r) => Some(
            (on_table("SELECT nodeno FROM ", table_name, "_rowid", " WHERE rowid = ?"), *r),
        ),
        Request::RowidAux(r) => {
            let mut out: String = "SELECT ".to_owned();
            out.append(quote_list(aux_columns).as_str());
            let tail: String = on_table(" FROM ", table_name, "_rowid", " WHERE rowid = ?");
            let ghost before = out@;
            out.append(tail.as_str());
            assert(out@ =~= before + " FROM "@ + rowid_table(table_name@) + " WHERE rowid = ?"@);
            Some((out, *r))
        },
        _ => None,
    }
}

impl RtreeTable {
    pub fn shadow_node_table(&self) -> (r: String)
        ensures
            r@ == node_table(self@.table_name),
    {
        let mut out: String = self.table_name.clone();
        out.append("_node");
        out
    }

    pub fn shadow_rowid_table(&self) -> (r: String)
        ensures
            r@ == rowid_table(self@.table_name),
    {
        let mut out: String = self.table_name.clone();
        out.append("_rowid");
        out
    }

    pub fn shadow_parent_table(&self) -> (r: String)
        ensures
            r@ == parent_table(self@.table_name),
    {
        let mut out: String = self.table_name.clone();
        out.append("_parent");
        out
    }
}

impl RtreeCursor {
    pub fn shadow_rowid_sql_name(&self) -> (r: String)
        ensures
            r@ == rowid_table(self@.table_name),
    {
        let mut out: String = self.table_name.clone();
        out.append("_rowid");
        out
    }
}

} // verus!
