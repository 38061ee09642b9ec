//! Snapshot text: the live cells of a bounding box, one line per row.

use vstd::prelude::*;

use super::cell::status_char;
use super::{status_in, Pos};

verus! {

/// Whether `b == (x0, y0, x1, y1)` is the smallest box holding `s`: every
/// position of `s` lies in it and each of its four sides touches `s`.
pub open spec fn is_bounding_box(s: Set<Pos>, b: (int, int, int, int)) -> bool {
    &&& forall|p: Pos| #[trigger] s.contains(p) ==> b.0 <= p.0 <= b.2 && b.1 <= p.1 <= b.3
    &&& exists|p: Pos| #[trigger] s.contains(p) && p.0 == b.0
    &&& exists|p: Pos| #[trigger] s.contains(p) && p.1 == b.1
    &&& exists|p: Pos| #[trigger] s.contains(p) && p.0 == b.2
    &&& exists|p: Pos| #[trigger] s.contains(p) && p.1 == b.3
}

/// The bounding box of a set of positions that has one.
pub open spec fn bounding_box(s: Set<Pos>) -> (int, int, int, int) {
    choose|b: (int, int, int, int)| is_bounding_box(s, b)
}

/// A set has at most one bounding box.
pub proof fn lemma_bounding_box_unique(s: Set<Pos>, b: (int, int, int, int))
    requires
        is_bounding_box(s, b),
    ensures
        bounding_box(s) == b,
{
    let c = bounding_box(s);
    assert(is_bounding_box(s, c));
    let p0 = choose|p: Pos| #[trigger] s.contains(p) && p.0 == b.0;
    let q0 = choose|p: Pos| #[trigger] s.contains(p) && p.0 == c.0;
    let p1 = choose|p: Pos| #[trigger] s.contains(p) && p.1 == b.1;
    let q1 = choose|p: Pos| #[trigger] s.contains(p) && p.1 == c.1;
    let p2 = choose|p: Pos| #[trigger] s.contains(p) && p.0 == b.2;
    let q2 = choose|p: Pos| #[trigger] s.contains(p) && p.0 == c.2;
    let p3 = choose|p: Pos| #[trigger] s.contains(p) && p.1 == b.3;
    let q3 = choose|p: Pos| #[trigger] s.contains(p) && p.1 == c.3;
    assert(s.contains(p0) && s.contains(q0) && s.contains(p1) && s.contains(q1));
    assert(s.contains(p2) && s.contains(q2) && s.contains(p3) && s.contains(q3));
}

/// The glyphs of row `y` from column `x0` to column `x1`.
pub open spec fn snapshot_row(s: Set<Pos>, y: int, x0: int, x1: int) -> Seq<char> {
    Seq::new((x1 - x0 + 1) as nat, |i: int| status_char(status_in(s, x0 + i, y)))
}

/// The rows of the bounding box of `s`, top to bottom; none for an empty set.
pub open spec fn snapshot_rows(s: Set<Pos>) -> Seq<Seq<char>> {
    if exists|p: Pos| s.contains(p) {
        let b = bounding_box(s);
        Seq::new((b.3 - b.1 + 1) as nat, |j: int| snapshot_row(s, b.1 + j, b.0, b.2))
    } else {
        Seq::empty()
    }
}

/// A row followed by its line end.
pub open spec fn with_newline(r: Seq<char>) -> Seq<char> {
    r.push('\n')
}

/// The snapshot text of a set of live positions: each row of its bounding
/// box, one glyph per column, each row ended by a newline.
pub open spec fn snapshot_text(s: Set<Pos>) -> Seq<char> {
    snapshot_rows(s).map_values(|r: Seq<char>| with_newline(r)).flatten()
}

/// Relies on `String::push`: appends one character.
#[verifier::external_body]
pub(crate) fn push_char(s: &mut String, c: char)
    ensures
        final(s)@ == old(s)@.push(c),
{
    s.push(c);
}

} // verus!
