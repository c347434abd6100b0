//! Creating a table from the arguments of a `CREATE VIRTUAL TABLE` statement.

use vstd::prelude::*;
use crate::module_laws;
use crate::node::RTREE_MAX_DIMENSIONS;
use crate::table;
use crate::table::{RtreeTable, TableView, RTREE_MAX_AUX_COLUMN, RTREE_NODE_SIZE};
use crate::text;
use crate::value::ResultCode;

verus! {

/// The module that R-tree tables belong to.
#[derive(Clone, Copy, Debug)]
pub struct RtreeModule;

/// The characters of each argument that is a text.
pub open spec fn arg_texts(args: Seq<Option<String>>) -> Seq<Option<Seq<char>>> {
    Seq::new(
        args.len(),
        |i: int|
            match args[i] {
                Some(s) => Some(s@),
                None => None,
            },
    )
}

/// Reading the column arguments from the `i`-th on, with `n` coordinates and the auxiliary names
/// `aux` read before. A text that starts with a plus names an auxiliary column by its first word;
/// the texts before the first of these are coordinates. Reading ends at the first text behind an
/// auxiliary column that is not one.
pub open spec fn columns_from(texts: Seq<Option<Seq<char>>>, i: int, n: nat, aux: Seq<Seq<char>>) -> Option<
    (nat, Seq<Seq<char>>),
>
    decreases texts.len() - i,
{
    if i < 0 || i >= texts.len() {
        Some((n, aux))
    } else {
        match texts[i] {
            None => None,
            Some(t) => if t.len() > 0 && t[0] == '+' {
                match text::first_word(t, 1) {
                    None => None,
                    Some(name) => columns_from(texts, i + 1, n, aux.push(name)),
                }
            } else if aux.len() == 0 {
                columns_from(texts, i + 1, n + 1, aux)
            } else {
                Some((n, aux))
            },
        }
    }
}

/// The columns of a table: one to five dimensions of two coordinates each, and not too many
/// auxiliary columns.
pub open spec fn columns(texts: Seq<Option<Seq<char>>>) -> Option<(nat, Seq<Seq<char>>)> {
    match columns_from(texts, 0, 0, Seq::empty()) {
        None => None,
        Some((n, aux)) => if n < 2 || n > 2 * RTREE_MAX_DIMENSIONS || n % 2 != 0 || aux.len()
            > RTREE_MAX_AUX_COLUMN {
            None
        } else {
            Some((n, aux))
        },
    }
}

/// The text of an argument, or `other` for one that is not a text.
pub open spec fn text_or(arg: Option<Seq<char>>, other: Seq<char>) -> Seq<char> {
    match arg {
        Some(t) => t,
        None => other,
    }
}

/// The names that the first `n` arguments give.
pub open spec fn names(texts: Seq<Option<Seq<char>>>, n: nat) -> Seq<Seq<char>> {
    Seq::new(n, |i: int| text_or(texts[i], Seq::empty()))
}

/// The schema of a table: the row id column, the coordinates, the auxiliary columns.
pub open spec fn schema(id: Seq<char>, coords: Seq<Seq<char>>, aux: Seq<Seq<char>>) -> Seq<char> {
    "CREATE TABLE x ("@ + text::quoted(id) + " INTEGER PRIMARY KEY"@ + text::quoted_columns(
        coords,
        " REAL"@,
    ) + text::quoted_columns(aux, " TEXT"@) + ")"@
}

/// A new table.
pub open spec fn new_table(name: Seq<char>, n_dim2: nat, aux: Seq<Seq<char>>) -> TableView {
    TableView {
        n_dim2: n_dim2 as usize,
        n_bytes_per_cell: (8 + 4 * n_dim2) as usize,
        node_size: RTREE_NODE_SIZE,
        depth: 0,
        row_count: 0,
        node_count: 0,
        table_name: name,
        aux_columns: aux,
    }
}

/// Appends each name, quoted, behind a comma and before `suffix`.
pub(crate) fn append_columns(out: &mut String, names: &Vec<String>, suffix: &str)
    ensures
        final(out)@ == old(out)@ + text::quoted_columns(
            table::string_views(names@),
            suffix@,
        ),
{
    let ghost all = table::string_views(names@);
    let mut i: usize = 0;
    assert(all.take(0) =~= Seq::empty());
    assert(out@ =~= old(out)@ + text::quoted_columns(all.take(0), suffix@));
    while i < names.len()
        invariant
            all == table::string_views(names@),
            i <= names.len(),
            out@ == old(out)@ + text::quoted_columns(all.take(i as int), suffix@),
        decreases names.len() - i,
    {
        let ghost before = out@;
        out.append(", ");
        out.append(text::quote_sql_ident(names[i].as_str()).as_str());
        out.append(suffix);
        proof {
            assert(all.take(i + 1).drop_last() =~= all.take(i as int));
            assert(all.take(i + 1).last() == names@[i as int]@);
            assert(out@ =~= before + (", "@ + text::quoted(names@[i as int]@) + suffix@));
            assert(out@ =~= old(out)@ + text::quoted_columns(all.take(i + 1), suffix@));
        }
        i = i + 1;
    }
    assert(all.take(names.len() as int) =~= all);
}

/// Whether a text starts with a plus.
fn is_aux(s: &str) -> (r: bool)
    ensures
        r == (s@.len() > 0 && s@[0] == '+'),
{
    if s.unicode_len() == 0 {
        false
    } else {
        s.get_char(0) == '+'
    }
}

impl RtreeModule {
    /// Coordinate columns first, then optional `+name` / `+name TYPE` auxiliary columns. `args` are
    /// the texts of the arguments from number `from` on; an argument that is not a text is none.
    pub fn parse_column_args(args: &Vec<Option<String>>, from: usize) -> (r: Result<
        (usize, Vec<String>),
        ResultCode,
    >)
        requires
            from <= args.len(),
        ensures
            match r {
                Ok((n_dim2, aux)) => columns(arg_texts(args@).skip(from as int)) == Some(
                    (n_dim2 as nat, table::string_views(aux@)),
                ),
                Err(code) => code == ResultCode::InvalidArgs && columns(
                    arg_texts(args@).skip(from as int),
                ) is None,
            },
    {
        let ghost texts = arg_texts(args@).skip(from as int);
        let mut n_dim2: usize = 0;
        let mut aux_names: Vec<String> = Vec::new();
        let mut i: usize = from;
        assert(table::string_views(aux_names@) =~= Seq::empty());
        while i < args.len()
            invariant_except_break
                from <= i <= args.len(),
                n_dim2 <= i - from,
                texts == arg_texts(args@).skip(from as int),
                columns_from(
                    texts,
                    i - from,
                    n_dim2 as nat,
                    table::string_views(aux_names@),
                ) == columns_from(texts, 0, 0, Seq::empty()),
            ensures
                columns_from(texts, 0, 0, Seq::empty()) == Some(
                    (n_dim2 as nat, table::string_views(aux_names@)),
                ),
            decreases args.len() - i,
        {
            let text: &String = match &args[i] {
                Some(text) => text,
                None => {
                    return Err(ResultCode::InvalidArgs);
                },
            };
            assert(texts[i - from] == Some(text@));
            if is_aux(text.as_str()) {
                match text::word_from(text.as_str(), 1) {
                    Some(name) => {
                        let ghost before = aux_names@;
                        aux_names.push(name);
                        assert(table::string_views(aux_names@) =~= table::string_views(before).push(
                            name@,
                        ));
                    },
                    None => {
                        return Err(ResultCode::InvalidArgs);
                    },
                }
            } else if aux_names.len() == 0 {
                n_dim2 = n_dim2 + 1;
            } else {
                break;
            }
            i = i + 1;
        }
        if n_dim2 < 2 || n_dim2 > RTREE_MAX_DIMENSIONS * 2 || n_dim2 % 2 != 0 {
            return Err(ResultCode::InvalidArgs);
        }
        if aux_names.len() > RTREE_MAX_AUX_COLUMN {
            return Err(ResultCode::InvalidArgs);
        }
        Ok((n_dim2, aux_names))
    }

    /// Creates a table from the module name, the database name, the table name, the row id column
    /// and the other columns. Gives the schema of the table with it.
    pub fn create(args: &Vec<Option<String>>) -> (r: Result<(String, RtreeTable), ResultCode>)
        ensures
            ({
                let texts = arg_texts(args@);
                if args@.len() < 5 {
                    r matches Err(code) && code == ResultCode::InvalidArgs
                } else {
                    match columns(texts.skip(4)) {
                        None => r matches Err(code) && code == ResultCode::InvalidArgs,
                        Some((n_dim2, aux)) => {
                            &&& r matches Ok((text, t))
                            &&& t@ == new_table(text_or(texts[2], "x"@), n_dim2, aux)
                            &&& t@.wf()
                            &&& text@ == schema(
                                text_or(texts[3], "id"@),
                                names(texts.skip(4), n_dim2),
                                aux,
                            )
                        },
                    }
                }
            }),
            forall|c: int, a: int, aux: Seq<Seq<char>>|
                args@.len() >= 5 && module_laws::lists_columns(arg_texts(args@).skip(4), c, a)
                    && #[trigger] module_laws::names_columns(
                    arg_texts(args@).skip(4),
                    c,
                    a,
                    aux,
                ) ==> if module_laws::is_coordinate_count(c) && a <= 100 {
                    &&& r matches Ok((_, t))
                    &&& t.n_dim2 == c
                    &&& t.n_bytes_per_cell == 8 + 4 * c
                    &&& t.node_size == 4032
                    &&& t.row_count == 0
                    &&& t.node_count == 0
                    &&& table::string_views(t.aux_columns@) == aux
                    &&& args@[2] matches Some(name) ==> t.table_name@ == name@
                } else {
                    r matches Err(code) && code == ResultCode::InvalidArgs
                },
    {
        proof {
            let texts = arg_texts(args@).skip(4);
            assert forall|c: int, a: int, aux: Seq<Seq<char>>|
                module_laws::lists_columns(texts, c, a) && #[trigger] module_laws::names_columns(
                    texts,
                    c,
                    a,
                    aux,
                ) implies if module_laws::is_coordinate_count(c) && a <= 100 {
                columns(texts) == Some((c as nat, aux))
            } else {
                columns(texts) is None
            } by {
                module_laws::lemma_columns_of_list(texts, c, a, aux);
            }
        }
        if args.len() < 5 {
            return Err(ResultCode::InvalidArgs);
        }
        let ghost texts = arg_texts(args@);
        let (n_dim2, aux_columns) = match RtreeModule::parse_column_args(args, 4) {
            Ok(parsed) => parsed,
            Err(code) => {
                return Err(code);
            },
        };
        let mut coords: Vec<String> = Vec::new();
        proof {
            lemma_coordinates_are_arguments(texts.skip(4), 0, 0, Seq::empty());
        }
        let mut i: usize = 0;
        while i < n_dim2
            invariant
                texts == arg_texts(args@),
                n_dim2 + 4 <= args.len(),
                i <= n_dim2,
                coords.len() == i,
                forall|j: int|
                    0 <= j < i ==> #[trigger] coords@[j]@ == names(
                        texts.skip(4),
                        n_dim2 as nat,
                    )[j],
            decreases n_dim2 - i,
        {
            assert(texts.skip(4)[i as int] == texts[i + 4]);
            coords.push(text_of(&args[i + 4], ""));
            proof {
                reveal_strlit("");
                assert(""@ =~= Seq::empty());
            }
            i = i + 1;
        }
        assert(table::string_views(coords@) =~= names(texts.skip(4), n_dim2 as nat));
        let id: String = text_of(&args[3], "id");
        let mut schema_text: String = "CREATE TABLE x (".to_owned();
        schema_text.append(text::quote_sql_ident(id.as_str()).as_str());
        schema_text.append(" INTEGER PRIMARY KEY");
        append_columns(&mut schema_text, &coords, " REAL");
        append_columns(&mut schema_text, &aux_columns, " TEXT");
        schema_text.append(")");
        let t = RtreeTable {
            n_dim2,
            n_bytes_per_cell: 8 + n_dim2 * 4,
            node_size: RTREE_NODE_SIZE,
            depth: 0,
            row_count: 0,
            node_count: 0,
            table_name: text_of(&args[2], "x"),
            aux_columns,
        };
        Ok((schema_text, t))
    }
}

/// The text of an argument, or `other` for one that is not a text.
fn text_of(arg: &Option<String>, other: &str) -> (r: String)
    ensures
        r@ == text_or(
            match *arg {
                Some(s) => Some(s@),
                None => None,
            },
            other@,
        ),
{
    match arg {
        Some(s) => s.clone(),
        None => other.to_owned(),
    }
}

/// No more coordinates are read than there are arguments.
proof fn lemma_coordinates_are_arguments(
    texts: Seq<Option<Seq<char>>>,
    i: int,
    n: nat,
    aux: Seq<Seq<char>>,
)
    requires
        0 <= i <= texts.len(),
        n <= i,
    ensures
        columns_from(texts, i, n, aux) matches Some((m, _)) ==> m <= texts.len(),
    decreases texts.len() - i,
{
    if i < texts.len() {
        if let Some(t) = texts[i] {
            if t.len() > 0 && t[0] == '+' {
                if let Some(name) = text::first_word(t, 1) {
                    lemma_coordinates_are_arguments(texts, i + 1, n, aux.push(name));
                }
            } else if aux.len() == 0 {
                lemma_coordinates_are_arguments(texts, i + 1, n + 1, aux);
            }
        }
    }
}

} // verus!
