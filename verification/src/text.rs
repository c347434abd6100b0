//! Words and quoted names.

use vstd::prelude::*;

verus! {

/// The character separates words: it has the Unicode property `White_Space`.
pub open spec fn white_space(c: char) -> bool {
    ||| 0x9 <= c as u32 <= 0xd
    ||| c as u32 == 0x20
    ||| c as u32 == 0x85
    ||| c as u32 == 0xa0
    ||| c as u32 == 0x1680
    ||| 0x2000 <= c as u32 <= 0x200a
    ||| c as u32 == 0x2028
    ||| c as u32 == 0x2029
    ||| c as u32 == 0x202f
    ||| c as u32 == 0x205f
    ||| c as u32 == 0x3000
}

/// Where the first word at or behind `i` starts, or the length when there is none.
pub open spec fn word_start(s: Seq<char>, i: int) -> int
    decreases s.len() - i,
{
    if i < s.len() && white_space(s[i]) {
        word_start(s, i + 1)
    } else {
        i
    }
}

/// Where the word that goes on at `i` ends.
pub open spec fn word_end(s: Seq<char>, i: int) -> int
    decreases s.len() - i,
{
    if i < s.len() && !white_space(s[i]) {
        word_end(s, i + 1)
    } else {
        i
    }
}

/// The first word at or behind `i`.
pub open spec fn first_word(s: Seq<char>, i: int) -> Option<Seq<char>> {
    let start = word_start(s, i);
    if start >= s.len() {
        None
    } else {
        Some(s.subrange(start, word_end(s, start)))
    }
}

/// A name with each quote in it doubled.
pub open spec fn doubled(name: Seq<char>) -> Seq<char>
    decreases name.len(),
{
    if name.len() == 0 {
        Seq::empty()
    } else if name.last() == '"' {
        doubled(name.drop_last()) + seq!['"', '"']
    } else {
        doubled(name.drop_last()).push(name.last())
    }
}

/// A name as a quoted SQL identifier.
pub open spec fn quoted(name: Seq<char>) -> Seq<char> {
    seq!['"'] + doubled(name) + seq!['"']
}

/// A list of names as quoted SQL identifiers, with commas between them.
pub open spec fn quoted_list(names: Seq<Seq<char>>) -> Seq<char>
    decreases names.len(),
{
    if names.len() == 0 {
        Seq::empty()
    } else if names.len() == 1 {
        quoted(names[0])
    } else {
        quoted_list(names.drop_last()) + ", "@ + quoted(names.last())
    }
}

/// Each name quoted, behind a comma and before `suffix`.
pub open spec fn quoted_columns(names: Seq<Seq<char>>, suffix: Seq<char>) -> Seq<char>
    decreases names.len(),
{
    if names.len() == 0 {
        Seq::empty()
    } else {
        quoted_columns(names.drop_last(), suffix) + (", "@ + quoted(names.last()) + suffix)
    }
}

pub fn is_white_space(c: char) -> (r: bool)
    ensures
        r == white_space(c),
{
    let u: u32 = c as u32;
    (0x9 <= u && u <= 0xd) || u == 0x20 || u == 0x85 || u == 0xa0 || u == 0x1680 || (0x2000 <= u
        && u <= 0x200a) || u == 0x2028 || u == 0x2029 || u == 0x202f || u == 0x205f || u == 0x3000
}

/// The first word of `s` at or behind character `i`.
pub fn word_from(s: &str, i: usize) -> (r: Option<String>)
    requires
        i <= s@.len(),
    ensures
        match r {
            Some(word) => first_word(s@, i as int) == Some(word@),
            None => first_word(s@, i as int) is None,
        },
{
    let n: usize = s.unicode_len();
    let mut start: usize = i;
    while start < n && is_white_space(s.get_char(start))
        invariant
            n == s@.len(),
            i <= start <= n,
            word_start(s@, i as int) == word_start(s@, start as int),
        decreases n - start,
    {
        start = start + 1;
    }
    if start >= n {
        return None;
    }
    let mut end: usize = start;
    while end < n && !is_white_space(s.get_char(end))
        invariant
            n == s@.len(),
            start <= end <= n,
            word_end(s@, start as int) == word_end(s@, end as int),
        decreases n - end,
    {
        end = end + 1;
    }
    Some(s.substring_char(start, end).to_owned())
}

/// Escapes a column name for use inside SQL `"identifier"` tokens.
pub fn quote_sql_ident(name: &str) -> (r: String)
    ensures
        r@ == quoted(name@),
{
    proof {
        reveal_strlit("\"");
        reveal_strlit("\"\"");
        assert("\""@ =~= seq!['"']);
        assert("\"\""@ =~= seq!['"', '"']);
    }
    let mut out: String = "\"".to_owned();
    let n: usize = name.unicode_len();
    let mut i: usize = 0;
    assert(name@.take(0) =~= Seq::empty());
    assert(out@ =~= seq!['"'] + doubled(name@.take(0)));
    while i < n
        invariant
            "\"\""@ == seq!['"', '"'],
            n == name@.len(),
            i <= n,
            out@ == seq!['"'] + doubled(name@.take(i as int)),
        decreases n - i,
    {
        assert(name@.take(i + 1).drop_last() =~= name@.take(i as int));
        assert(name@.take(i + 1).last() == name@[i as int]);
        if name.get_char(i) == '"' {
            out.append("\"\"");
        } else {
            out.append(name.substring_char(i, i + 1));
            assert(name@.subrange(i as int, i + 1) =~= seq![name@[i as int]]);
        }
        i = i + 1;
        assert(out@ =~= seq!['"'] + doubled(name@.take(i as int)));
    }
    assert(name@.take(n as int) =~= name@);
    out.append("\"");
    out
}

} // verus!
