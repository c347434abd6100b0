//! Which tables can be created, and what a new table is like, by the arguments it is created from.

use vstd::prelude::*;
use crate::module;
use crate::table::TableView;
use crate::text;
use crate::text_laws;
use crate::text_laws::{is_first_word, separates};

verus! {

/// The text names an auxiliary column.
pub open spec fn has_plus(t: Seq<char>) -> bool {
    t.len() > 0 && t[0] == '+'
}

/// The column arguments begin with `c` names of coordinates, and `a` texts with a plus follow.
pub open spec fn begins_with(texts: Seq<Option<Seq<char>>>, c: int, a: int) -> bool {
    &&& 0 <= c
    &&& 0 <= a
    &&& c + a <= texts.len()
    &&& forall|i: int|
        0 <= i < c ==> (#[trigger] texts[i]) is Some && !has_plus(texts[i]->0)
    &&& forall|i: int|
        c <= i < c + a ==> (#[trigger] texts[i]) is Some && has_plus(texts[i]->0)
}

/// The column arguments are `c` names of coordinates and `a` texts with a plus. Behind these nothing
/// follows, or a text without a plus, which ends the list.
pub open spec fn lists_columns(texts: Seq<Option<Seq<char>>>, c: int, a: int) -> bool {
    &&& begins_with(texts, c, a)
    &&& c + a == texts.len() || (a > 0 && texts[c + a] is Some && !has_plus(texts[c + a]->0))
}

/// Every text with a plus names an auxiliary column by the first word behind the plus.
pub open spec fn names_columns(
    texts: Seq<Option<Seq<char>>>,
    c: int,
    a: int,
    aux: Seq<Seq<char>>,
) -> bool {
    &&& aux.len() == a
    &&& forall|j: int|
        0 <= j < a ==> is_first_word(texts[c + j]->0, 1, #[trigger] aux[j])
}

/// A number of coordinates that a table can have: two for each of one to five dimensions.
pub open spec fn is_coordinate_count(c: int) -> bool {
    c == 2 || c == 4 || c == 6 || c == 8 || c == 10
}

proof fn lemma_coordinates_read(texts: Seq<Option<Seq<char>>>, c: int, a: int, i: int)
    requires
        begins_with(texts, c, a),
        0 <= i <= c,
    ensures
        module::columns_from(texts, i, i as nat, Seq::empty()) == module::columns_from(
            texts,
            c,
            c as nat,
            Seq::empty(),
        ),
    decreases c - i,
{
    if i < c {
        assert(texts[i] is Some);
        lemma_coordinates_read(texts, c, a, i + 1);
    }
}

proof fn lemma_auxiliaries_read(
    texts: Seq<Option<Seq<char>>>,
    c: int,
    a: int,
    aux: Seq<Seq<char>>,
    j: int,
)
    requires
        begins_with(texts, c, a),
        names_columns(texts, c, a, aux),
        0 <= j <= a,
    ensures
        module::columns_from(texts, c + j, c as nat, aux.take(j)) == module::columns_from(
            texts,
            c + a,
            c as nat,
            aux,
        ),
    decreases a - j,
{
    if j < a {
        let t = texts[c + j]->0;
        assert(has_plus(t));
        assert(is_first_word(texts[c + j]->0, 1, aux[j]));
        text_laws::lemma_first_word_is_unique(t, 1, aux[j]);
        lemma_auxiliaries_read(texts, c, a, aux, j + 1);
        assert(aux.take(j).push(aux[j]) =~= aux.take(j + 1));
    } else {
        assert(aux.take(j) =~= aux);
    }
}

/// A table is created from every list of 2, 4, 6, 8 or 10 names of coordinates and at most 100
/// auxiliary columns, and has these columns. Any other number of either is refused.
pub proof fn lemma_columns_of_list(
    texts: Seq<Option<Seq<char>>>,
    c: int,
    a: int,
    aux: Seq<Seq<char>>,
)
    requires
        lists_columns(texts, c, a),
        names_columns(texts, c, a, aux),
    ensures
        is_coordinate_count(c) && a <= 100 ==> module::columns(texts) == Some((c as nat, aux)),
        !is_coordinate_count(c) || a > 100 ==> module::columns(texts) is None,
{
    lemma_coordinates_read(texts, c, a, 0);
    lemma_auxiliaries_read(texts, c, a, aux, 0);
    assert(aux.take(0) =~= Seq::empty());
}

/// A list in which an argument that is read is not a text, or a text with a plus names no column, is
/// refused.
pub proof fn lemma_unreadable_list_is_refused(
    texts: Seq<Option<Seq<char>>>,
    c: int,
    a: int,
    aux: Seq<Seq<char>>,
)
    requires
        begins_with(texts, c, a),
        names_columns(texts, c, a, aux),
        c + a < texts.len(),
        texts[c + a] is None || (has_plus(texts[c + a]->0) && forall|i: int|
            1 <= i < texts[c + a]->0.len() ==> separates(#[trigger] texts[c + a]->0[i])),
    ensures
        module::columns(texts) is None,
{
    lemma_coordinates_read(texts, c, a, 0);
    lemma_auxiliaries_read(texts, c, a, aux, 0);
    assert(aux.take(0) =~= Seq::empty());
    if let Some(t) = texts[c + a] {
        text_laws::lemma_first_word(t, 1);
        if let Some(word) = text::first_word(t, 1) {
            let (x, y) = choose|x: int, y: int| #[trigger]
                text_laws::is_word_at(t, 1, x, y) && word == t.subrange(x, y);
            assert(!separates(t[x]));
        }
    }
}

/// Every list of column arguments either lists columns by their names or cannot be read.
pub proof fn lemma_every_list_is_decided(texts: Seq<Option<Seq<char>>>) -> (r: (
    int,
    int,
    Seq<Seq<char>>,
))
    ensures
        begins_with(texts, r.0, r.1),
        names_columns(texts, r.0, r.1, r.2),
        lists_columns(texts, r.0, r.1) || (r.0 + r.1 < texts.len() && (texts[r.0 + r.1] is None || (
        has_plus(texts[r.0 + r.1]->0) && forall|i: int|
            1 <= i < texts[r.0 + r.1]->0.len() ==> separates(#[trigger] texts[r.0 + r.1]->0[i])))),
{
    let c = lemma_leading_coordinates(texts, 0);
    lemma_following_auxiliaries(texts, c, 0, Seq::empty())
}

proof fn lemma_leading_coordinates(texts: Seq<Option<Seq<char>>>, c: int) -> (r: int)
    requires
        begins_with(texts, c, 0),
    ensures
        begins_with(texts, r, 0),
        r == texts.len() || texts[r] is None || has_plus(texts[r]->0),
    decreases texts.len() - c,
{
    if c < texts.len() && texts[c] is Some && !has_plus(texts[c]->0) {
        lemma_leading_coordinates(texts, c + 1)
    } else {
        c
    }
}

proof fn lemma_following_auxiliaries(
    texts: Seq<Option<Seq<char>>>,
    c: int,
    a: int,
    aux: Seq<Seq<char>>,
) -> (r: (int, int, Seq<Seq<char>>))
    requires
        begins_with(texts, c, a),
        names_columns(texts, c, a, aux),
        a == 0 ==> c == texts.len() || texts[c] is None || has_plus(texts[c]->0),
    ensures
        begins_with(texts, r.0, r.1),
        names_columns(texts, r.0, r.1, r.2),
        lists_columns(texts, r.0, r.1) || (r.0 + r.1 < texts.len() && (texts[r.0 + r.1] is None || (
        has_plus(texts[r.0 + r.1]->0) && forall|i: int|
            1 <= i < texts[r.0 + r.1]->0.len() ==> separates(#[trigger] texts[r.0 + r.1]->0[i])))),
    decreases texts.len() - a,
{
    if c + a < texts.len() && texts[c + a] is Some && has_plus(texts[c + a]->0) {
        let t = texts[c + a]->0;
        text_laws::lemma_first_word(t, 1);
        match text::first_word(t, 1) {
            Some(word) => {
                let more = aux.push(word);
                assert forall|j: int| 0 <= j < a + 1 implies is_first_word(
                    texts[c + j]->0,
                    1,
                    #[trigger] more[j],
                ) by {
                    if j < a {
                        assert(more[j] == aux[j]);
                    }
                }
                lemma_following_auxiliaries(texts, c, a + 1, more)
            },
            None => (c, a, aux),
        }
    } else {
        (c, a, aux)
    }
}

/// A new table: cells of a row id of eight bytes and four bytes for each coordinate, pages of 4032
/// bytes, nothing stored and nothing counted.
pub proof fn lemma_new_table(name: Seq<char>, n_dim2: nat, aux: Seq<Seq<char>>)
    requires
        n_dim2 <= 10,
    ensures
        ({
            let t = module::new_table(name, n_dim2, aux);
            &&& t.n_dim2 == n_dim2
            &&& t.n_bytes_per_cell == 8 + 4 * n_dim2
            &&& t.node_size == 4032
            &&& t.depth == 0
            &&& t.row_count == 0
            &&& t.node_count == 0
            &&& t.table_name == name
            &&& t.aux_columns == aux
        }),
{
}

/// One column of a schema: its quoted name and its type.
pub open spec fn declared(name: Seq<char>, kind: Seq<char>) -> Seq<char> {
    text::quoted(name) + seq![' '] + kind
}

/// The declarations of a list, with a comma between two of them.
pub open spec fn joined(parts: Seq<Seq<char>>) -> Seq<char>
    decreases parts.len(),
{
    if parts.len() == 0 {
        Seq::empty()
    } else if parts.len() == 1 {
        parts[0]
    } else {
        parts[0] + seq![',', ' '] + joined(parts.skip(1))
    }
}

proof fn lemma_joined_behind(parts: Seq<Seq<char>>, last: Seq<char>)
    requires
        parts.len() > 0,
    ensures
        joined(parts.push(last)) == joined(parts) + seq![',', ' '] + last,
    decreases parts.len(),
{
    let more = parts.push(last);
    if parts.len() == 1 {
        assert(more.skip(1) =~= seq![last]);
        assert(joined(seq![last]) == last);
        assert(joined(more) =~= joined(parts) + seq![',', ' '] + last);
    } else {
        lemma_joined_behind(parts.skip(1), last);
        assert(more.skip(1) =~= parts.skip(1).push(last));
        assert(joined(more) =~= joined(parts) + seq![',', ' '] + last);
    }
}

proof fn lemma_declared_columns(
    before: Seq<Seq<char>>,
    names: Seq<Seq<char>>,
    suffix: Seq<char>,
    kind: Seq<char>,
)
    requires
        before.len() > 0,
        suffix == seq![' '] + kind,
    ensures
        joined(before + Seq::new(names.len(), |i: int| declared(names[i], kind))) == joined(before)
            + text::quoted_columns(names, suffix),
    decreases names.len(),
{
    let parts = Seq::new(names.len(), |i: int| declared(names[i], kind));
    if names.len() == 0 {
        assert(before + parts =~= before);
        assert(joined(before) + text::quoted_columns(names, suffix) =~= joined(before));
    } else {
        let less = names.drop_last();
        let fewer = Seq::new(less.len(), |i: int| declared(less[i], kind));
        lemma_declared_columns(before, less, suffix, kind);
        assert(before + parts =~= (before + fewer).push(declared(names.last(), kind)));
        lemma_joined_behind(before + fewer, declared(names.last(), kind));
        text_laws::lemma_quoted_columns(less, seq![names.last()], names.last(), suffix);
        assert(names =~= less + seq![names.last()]);
        assert(joined(before + parts) =~= joined(before) + text::quoted_columns(names, suffix));
    }
}

/// The schema of a table declares, in this order, the row id column as the primary key, the
/// coordinates as numbers and the auxiliary columns as texts, under their names.
pub proof fn lemma_schema_declares_all_columns(
    id: Seq<char>,
    coords: Seq<Seq<char>>,
    aux: Seq<Seq<char>>,
)
    ensures
        module::schema(id, coords, aux) == "CREATE TABLE x ("@ + joined(
            seq![declared(id, "INTEGER PRIMARY KEY"@)] + Seq::new(
                coords.len(),
                |i: int| declared(coords[i], "REAL"@),
            ) + Seq::new(aux.len(), |i: int| declared(aux[i], "TEXT"@)),
        ) + ")"@,
{
    reveal_strlit(" INTEGER PRIMARY KEY");
    reveal_strlit("INTEGER PRIMARY KEY");
    reveal_strlit(" REAL");
    reveal_strlit("REAL");
    reveal_strlit(" TEXT");
    reveal_strlit("TEXT");
    assert(" INTEGER PRIMARY KEY"@ =~= seq![' '] + "INTEGER PRIMARY KEY"@);
    assert(" REAL"@ =~= seq![' '] + "REAL"@);
    assert(" TEXT"@ =~= seq![' '] + "TEXT"@);
    let first = seq![declared(id, "INTEGER PRIMARY KEY"@)];
    let second = Seq::new(coords.len(), |i: int| declared(coords[i], "REAL"@));
    lemma_declared_columns(first, coords, " REAL"@, "REAL"@);
    lemma_declared_columns(first + second, aux, " TEXT"@, "TEXT"@);
    assert(joined(first) == text::quoted(id) + seq![' '] + "INTEGER PRIMARY KEY"@);
    let parts = first + second + Seq::new(aux.len(), |i: int| declared(aux[i], "TEXT"@));
    assert(module::schema(id, coords, aux) =~= "CREATE TABLE x ("@ + joined(parts) + ")"@);
}

/// Pages have room for as many cells as fit behind the four bytes of their head, and a node should
/// hold at least a third of that.
pub proof fn lemma_room_of_pages(t: TableView)
    requires
        t.wf(),
    ensures
        4 + t.n_bytes_per_cell * t.max_cells() <= t.node_size,
        4 + t.n_bytes_per_cell * (t.max_cells() + 1) > t.node_size,
        3 * t.min_cells() <= t.max_cells(),
        3 * (t.min_cells() + 1) > t.max_cells(),
{
    let size = t.node_size - 4;
    let width = t.n_bytes_per_cell as int;
    let n = size / width;
    assert(width * n <= size && width * (n + 1) > size && n >= 0) by (nonlinear_arith)
        requires
            width > 0,
            size >= 0,
            n == size / width,
    ;
}

} // verus!
