//! Seed patterns: rows of glyphs centred on the board at construction.

use vstd::prelude::*;

use super::cell::is_status_char;
use super::{in_range, Pos};

verus! {

/// The rows of a seed pattern, as sequences of glyphs.
pub open spec fn seed_rows(obj: Seq<&str>) -> Seq<Seq<char>> {
    obj.map_values(|s: &str| s@)
}

/// Whether every glyph of the pattern is one of the two status glyphs.
pub open spec fn seed_is_valid(rows: Seq<Seq<char>>) -> bool {
    forall|j: int, i: int| 0 <= j < rows.len() && 0 <= i < rows[j].len() ==> is_status_char(#[trigger] rows[j][i])
}

/// The width of a pattern: the length of its longest row.
pub open spec fn seed_width(rows: Seq<Seq<char>>) -> nat
    decreases rows.len(),
{
    if rows.len() == 0 {
        0
    } else {
        let w = seed_width(rows.drop_last());
        if rows.last().len() > w {
            rows.last().len()
        } else {
            w
        }
    }
}

/// Where the pattern's first column and first row land on an `n × n` board,
/// so that the pattern is centred.
pub open spec fn seed_origin(n: int, rows: Seq<Seq<char>>) -> Pos {
    (n / 2 - seed_width(rows) as int / 2, n / 2 - rows.len() as int / 2)
}

/// Whether the pattern has a live glyph at column `i` of row `j`.
pub open spec fn seed_alive_at(rows: Seq<Seq<char>>, i: int, j: int) -> bool {
    0 <= j < rows.len() && 0 <= i < rows[j].len() && rows[j][i] == 'O'
}

/// The live positions of an `n × n` board seeded with `rows`; what falls
/// off the board is dropped.
pub open spec fn seed_alive(n: int, rows: Seq<Seq<char>>) -> Set<Pos> {
    Set::new(
        |p: Pos|
            in_range(n, p.0, p.1) && seed_alive_at(
                rows,
                p.0 - seed_origin(n, rows).0,
                p.1 - seed_origin(n, rows).1,
            ),
    )
}

/// The characters of `s`.
pub fn chars_of(s: &str) -> (r: Vec<char>)
    ensures
        r@ == s@,
{
    let mut r: Vec<char> = Vec::new();
    for c in it: s.chars()
        invariant
            it.seq() == s@,
            r@ == it.seq().subrange(0, it.index() as int),
    {
        r.push(c);
    }
    r
}

/// The width of a pattern.
pub fn width_of(rows: &Vec<Vec<char>>) -> (w: usize)
    ensures
        w == seed_width(rows@.map_values(|r: Vec<char>| r@)),
{
    let ghost v = rows@.map_values(|r: Vec<char>| r@);
    let mut w: usize = 0;
    let mut j: usize = 0;
    while j < rows.len()
        invariant
            v == rows@.map_values(|r: Vec<char>| r@),
            j <= rows@.len(),
            w == seed_width(v.subrange(0, j as int)),
        decreases rows@.len() - j,
    {
        assert(v.subrange(0, j + 1).drop_last() == v.subrange(0, j as int));
        if rows[j].len() > w {
            w = rows[j].len();
        }
        j = j + 1;
    }
    assert(v.subrange(0, rows@.len() as int) == v);
    w
}

/// The index of the first newline of `t`, or its length when it has none.
pub open spec fn first_newline(t: Seq<char>) -> nat
    decreases t.len(),
{
    if t.len() == 0 {
        0
    } else if t[0] == '\n' {
        0
    } else {
        1 + first_newline(t.drop_first())
    }
}

/// A line without the carriage return that ends it, if any.
pub open spec fn strip_cr(l: Seq<char>) -> Seq<char> {
    if l.len() > 0 && l.last() == '\r' {
        l.drop_last()
    } else {
        l
    }
}

/// The lines of a text, split at each newline, a carriage return just
/// before a newline dropped with it; a newline at the very end closes the
/// last line and opens none.
pub open spec fn split_lines(t: Seq<char>) -> Seq<Seq<char>>
    decreases t.len(),
{
    if t.len() == 0 {
        Seq::empty()
    } else {
        let i = first_newline(t);
        if i < t.len() {
            seq![strip_cr(t.subrange(0, i as int))] + split_lines(t.subrange(i as int + 1, t.len() as int))
        } else {
            seq![t]
        }
    }
}

pub(crate) proof fn lemma_first_newline(t: Seq<char>, k: int)
    requires
        0 <= k <= t.len(),
        forall|j: int| 0 <= j < k ==> t[j] != '\n',
        k == t.len() || t[k] == '\n',
    ensures
        first_newline(t) == k,
    decreases k,
{
    if k > 0 {
        lemma_first_newline(t.drop_first(), k - 1);
    }
}

/// The lines of `text`, as `split_lines` gives them.
pub fn lines_of(text: &str) -> (r: Vec<&str>)
    ensures
        seed_rows(r@) == split_lines(text@),
{
    let ghost t = text@;
    let chars = chars_of(text);
    let n = chars.len();
    let mut r: Vec<&str> = Vec::new();
    let mut start: usize = 0;
    let mut i: usize = 0;
    proof {
        assert(t.subrange(0, n as int) == t);
    }
    while i < n
        invariant
            t == text@,
            chars@ == t,
            n == t.len(),
            start <= i <= n,
            forall|j: int| start <= j < i ==> t[j] != '\n',
            split_lines(t) == seed_rows(r@) + split_lines(t.subrange(start as int, n as int)),
        decreases n - i,
    {
        if chars[i] == '\n' {
            let ghost rest = t.subrange(start as int, n as int);
            proof {
                lemma_first_newline(rest, i - start);
                assert(rest.subrange(0, i - start) == t.subrange(start as int, i as int));
                assert(rest.subrange(i - start + 1, rest.len() as int) == t.subrange(i + 1, n as int));
            }
            let end = if i > start && chars[i - 1] == '\r' {
                i - 1
            } else {
                i
            };
            let ghost pre = r@;
            r.push(text.substring_char(start, end));
            proof {
                let l = t.subrange(start as int, i as int);
                assert(strip_cr(l) == t.subrange(start as int, end as int));
                assert(seed_rows(r@) == seed_rows(pre) + seq![strip_cr(l)]);
            }
            start = i + 1;
        }
        i = i + 1;
    }
    if start < n {
        let ghost rest = t.subrange(start as int, n as int);
        proof {
            lemma_first_newline(rest, rest.len() as int);
        }
        let ghost pre = r@;
        r.push(text.substring_char(start, n));
        proof {
            assert(seed_rows(r@) == seed_rows(pre) + seq![rest]);
        }
    } else {
        proof {
            assert(t.subrange(start as int, n as int).len() == 0);
            assert(seed_rows(r@) + Seq::<Seq<char>>::empty() == seed_rows(r@));
        }
    }
    r
}

/// Whether every glyph of every row is a status glyph.
pub fn rows_are_valid(rows: &Vec<&str>) -> (b: bool)
    ensures
        b == seed_is_valid(seed_rows(rows@)),
{
    let ghost v = seed_rows(rows@);
    let mut j: usize = 0;
    while j < rows.len()
        invariant
            v == seed_rows(rows@),
            v.len() == rows@.len(),
            j <= rows@.len(),
            forall|jj: int, i: int| 0 <= jj < j && 0 <= i < v[jj].len() ==> is_status_char(#[trigger] v[jj][i]),
        decreases rows@.len() - j,
    {
        let chars = chars_of(rows[j]);
        assert(chars@ == v[j as int]);
        let mut i: usize = 0;
        while i < chars.len()
            invariant
                v == seed_rows(rows@),
                j < rows@.len(),
                v.len() == rows@.len(),
                chars@ == v[j as int],
                i <= chars@.len(),
                forall|k: int| 0 <= k < i ==> is_status_char(#[trigger] chars@[k]),
            decreases chars@.len() - i,
        {
            let c = chars[i];
            if !(c == '.' || c == 'O') {
                assert(!is_status_char(v[j as int][i as int]));
                return false;
            }
            i = i + 1;
        }
        j = j + 1;
    }
    true
}

} // verus!
