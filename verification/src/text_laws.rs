//! Words, quoted names and lists of them, by what they are made of.

use vstd::prelude::*;
use crate::text;

verus! {

/// The code points of the characters that separate words, in their order.
pub open spec fn separators() -> Seq<u32> {
    seq![
        0x9u32, 0xa, 0xb, 0xc, 0xd, 0x20, 0x85, 0xa0, 0x1680, 0x2000, 0x2001, 0x2002, 0x2003,
        0x2004, 0x2005, 0x2006, 0x2007, 0x2008, 0x2009, 0x200a, 0x2028, 0x2029, 0x202f, 0x205f,
        0x3000,
    ]
}

/// The character separates words.
pub open spec fn separates(c: char) -> bool {
    separators().contains(c as u32)
}

/// The characters that separate words are the 25 with the Unicode property `White_Space`.
pub proof fn lemma_separators(c: char)
    ensures
        text::white_space(c) <==> separates(c),
{
    let s = separators();
    let u = c as u32;
    if text::white_space(c) {
        let i: int = if u <= 0xd {
            u - 0x9
        } else if u == 0x20 {
            5
        } else if u == 0x85 {
            6
        } else if u == 0xa0 {
            7
        } else if u == 0x1680 {
            8
        } else if u <= 0x200a {
            u - 0x2000 + 9
        } else if u == 0x2028 {
            20
        } else if u == 0x2029 {
            21
        } else if u == 0x202f {
            22
        } else if u == 0x205f {
            23
        } else {
            24
        };
        assert(s[i] == u);
    }
}

/// `word` is the first word of a text at or behind `from`: only separators stand before it, none in
/// it, and the text ends or a separator stands behind it.
pub open spec fn is_first_word(s: Seq<char>, from: int, word: Seq<char>) -> bool {
    exists|start: int, end: int| #[trigger] is_word_at(s, from, start, end) && word == s.subrange(
        start,
        end,
    )
}

/// The first word of a text at or behind `from` goes from `start` up to `end`.
pub open spec fn is_word_at(s: Seq<char>, from: int, start: int, end: int) -> bool {
    &&& from <= start < end <= s.len()
    &&& forall|i: int| from <= i < start ==> separates(#[trigger] s[i])
    &&& forall|i: int| start <= i < end ==> !separates(#[trigger] s[i])
    &&& end == s.len() || separates(s[end])
}

proof fn lemma_word_start(s: Seq<char>, i: int)
    requires
        0 <= i <= s.len(),
    ensures
        i <= text::word_start(s, i) <= s.len(),
        forall|k: int| i <= k < text::word_start(s, i) ==> separates(#[trigger] s[k]),
        text::word_start(s, i) < s.len() ==> !separates(s[text::word_start(s, i)]),
    decreases s.len() - i,
{
    if i < s.len() {
        lemma_separators(s[i]);
        if text::white_space(s[i]) {
            lemma_word_start(s, i + 1);
        }
    }
}

proof fn lemma_word_end(s: Seq<char>, i: int)
    requires
        0 <= i <= s.len(),
    ensures
        i <= text::word_end(s, i) <= s.len(),
        forall|k: int| i <= k < text::word_end(s, i) ==> !separates(#[trigger] s[k]),
        text::word_end(s, i) < s.len() ==> separates(s[text::word_end(s, i)]),
        i < s.len() && !separates(s[i]) ==> text::word_end(s, i) > i,
    decreases s.len() - i,
{
    if i < s.len() {
        lemma_separators(s[i]);
        if !text::white_space(s[i]) {
            lemma_word_end(s, i + 1);
        }
    }
}

/// What is found as the first word of a text is its first word, and one is found where there is one.
pub proof fn lemma_first_word(s: Seq<char>, from: int)
    requires
        0 <= from <= s.len(),
    ensures
        text::first_word(s, from) matches Some(word) ==> is_first_word(s, from, word),
        text::first_word(s, from) is None ==> forall|i: int|
            from <= i < s.len() ==> separates(#[trigger] s[i]),
{
    lemma_word_start(s, from);
    let start = text::word_start(s, from);
    if start < s.len() {
        lemma_word_end(s, start);
        let end = text::word_end(s, start);
        assert(is_word_at(s, from, start, end));
    }
}

/// A text has one first word at most.
pub proof fn lemma_first_word_is_unique(s: Seq<char>, from: int, word: Seq<char>)
    requires
        0 <= from <= s.len(),
        is_first_word(s, from, word),
    ensures
        text::first_word(s, from) == Some(word),
{
    lemma_first_word(s, from);
    let (a, b) = choose|a: int, b: int| #[trigger]
        is_word_at(s, from, a, b) && word == s.subrange(a, b);
    assert(!separates(s[a]));
    if let Some(found) = text::first_word(s, from) {
        let (x, y) = choose|x: int, y: int| #[trigger]
            is_word_at(s, from, x, y) && found == s.subrange(x, y);
        assert(!separates(s[x]));
        assert(a == x);
        if b < y {
            assert(!separates(s[b]));
        }
        if y < b {
            assert(!separates(s[y]));
        }
    }
}

/// Doubling the quotes of a name: piece by piece, a quote becomes two, and any other character stays
/// as it is.
pub proof fn lemma_doubled(a: Seq<char>, b: Seq<char>, c: char)
    ensures
        text::doubled(Seq::empty()) == Seq::<char>::empty(),
        c == '"' ==> text::doubled(seq![c]) == seq!['"', '"'],
        c != '"' ==> text::doubled(seq![c]) == seq![c],
        text::doubled(a + b) == text::doubled(a) + text::doubled(b),
    decreases b.len(),
{
    assert(seq![c].drop_last() =~= Seq::<char>::empty());
    assert(text::doubled(seq![c].drop_last()) =~= Seq::empty());
    if c == '"' {
        assert(text::doubled(seq![c]) =~= seq!['"', '"']);
    } else {
        assert(text::doubled(seq![c]) =~= seq![c]);
    }
    if b.len() == 0 {
        assert(a + b =~= a);
        assert(text::doubled(a) + text::doubled(b) =~= text::doubled(a));
    } else {
        lemma_doubled(a, b.drop_last(), c);
        assert((a + b).drop_last() =~= a + b.drop_last());
        assert((a + b).last() == b.last());
        assert(text::doubled(a + b) =~= text::doubled(a) + text::doubled(b));
    }
}

/// The name that stands between the quotes of an identifier: two quotes are one, and a single quote
/// does not occur.
pub open spec fn undoubled(s: Seq<char>) -> Option<Seq<char>>
    decreases s.len(),
{
    if s.len() == 0 {
        Some(Seq::empty())
    } else if s[0] != '"' {
        match undoubled(s.skip(1)) {
            Some(rest) => Some(seq![s[0]] + rest),
            None => None,
        }
    } else if s.len() >= 2 && s[1] == '"' {
        match undoubled(s.skip(2)) {
            Some(rest) => Some(seq!['"'] + rest),
            None => None,
        }
    } else {
        None
    }
}

proof fn lemma_undoubled(name: Seq<char>)
    ensures
        undoubled(text::doubled(name)) == Some(name),
    decreases name.len(),
{
    if name.len() == 0 {
        assert(name =~= Seq::empty());
    } else {
        let c = name[0];
        let rest = name.skip(1);
        lemma_undoubled(rest);
        lemma_doubled(seq![c], rest, c);
        assert(name =~= seq![c] + rest);
        let d = text::doubled(name);
        if c == '"' {
            assert(d.skip(2) =~= text::doubled(rest));
        } else {
            assert(d.skip(1) =~= text::doubled(rest));
        }
    }
}

/// A quoted name stands between two quotes, and reads back as the name.
pub proof fn lemma_quoted_name_reads_back(name: Seq<char>)
    ensures
        text::quoted(name).len() >= 2,
        text::quoted(name)[0] == '"',
        text::quoted(name).last() == '"',
        undoubled(text::quoted(name).subrange(1, text::quoted(name).len() - 1)) == Some(name),
{
    lemma_undoubled(name);
    let q = text::quoted(name);
    assert(q.subrange(1, q.len() - 1) =~= text::doubled(name));
}

/// A list of column declarations is made of one for each name, in their order: a comma, the quoted
/// name, and what stands behind every name.
pub proof fn lemma_quoted_columns(
    a: Seq<Seq<char>>,
    b: Seq<Seq<char>>,
    name: Seq<char>,
    suffix: Seq<char>,
)
    ensures
        text::quoted_columns(Seq::empty(), suffix) == Seq::<char>::empty(),
        text::quoted_columns(seq![name], suffix) == seq![',', ' '] + text::quoted(name) + suffix,
        text::quoted_columns(a + b, suffix) == text::quoted_columns(a, suffix)
            + text::quoted_columns(b, suffix),
    decreases b.len(),
{
    reveal_strlit(", ");
    assert(", "@ =~= seq![',', ' ']);
    assert(seq![name].drop_last() =~= Seq::<Seq<char>>::empty());
    assert(text::quoted_columns(seq![name].drop_last(), suffix) =~= Seq::empty());
    assert(text::quoted_columns(seq![name], suffix) =~= seq![',', ' '] + text::quoted(name)
        + suffix);
    if b.len() == 0 {
        assert(a + b =~= a);
        assert(text::quoted_columns(a, suffix) + text::quoted_columns(b, suffix)
            =~= text::quoted_columns(a, suffix));
    } else {
        lemma_quoted_columns(a, b.drop_last(), name, suffix);
        assert((a + b).drop_last() =~= a + b.drop_last());
        assert((a + b).last() == b.last());
        assert(text::quoted_columns(a + b, suffix) =~= text::quoted_columns(a, suffix)
            + text::quoted_columns(b, suffix));
    }
}

/// A list of names is made of the quoted names in their order, with a comma between two of them.
pub proof fn lemma_quoted_list(a: Seq<Seq<char>>, b: Seq<Seq<char>>, name: Seq<char>)
    ensures
        text::quoted_list(Seq::empty()) == Seq::<char>::empty(),
        text::quoted_list(seq![name]) == text::quoted(name),
        a.len() > 0 && b.len() > 0 ==> text::quoted_list(a + b) == text::quoted_list(a) + seq![
            ',',
            ' ',
        ] + text::quoted_list(b),
    decreases b.len(),
{
    reveal_strlit(", ");
    assert(", "@ =~= seq![',', ' ']);
    if a.len() > 0 && b.len() > 0 {
        assert((a + b).drop_last() =~= a + b.drop_last());
        assert((a + b).last() == b.last());
        if b.len() == 1 {
            assert(a + b.drop_last() =~= a);
            assert(text::quoted_list(a + b) =~= text::quoted_list(a) + seq![',', ' ']
                + text::quoted_list(b));
        } else {
            lemma_quoted_list(a, b.drop_last(), name);
            assert(text::quoted_list(a + b) =~= text::quoted_list(a) + seq![',', ' ']
                + text::quoted_list(b));
        }
    }
}

} // verus!
