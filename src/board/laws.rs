//! Laws that relate several operations of the board.

use vstd::prelude::*;

use super::cell::is_status_char;
use super::seed::{
    first_newline, lemma_first_newline, seed_alive, seed_origin, seed_width,
    split_lines, strip_cr, seed_is_valid,
};
use super::snapshot::{
    bounding_box, is_bounding_box, snapshot_row, snapshot_rows, snapshot_text, with_newline,
};
use super::{in_range, live_neighbors, next_generation, push_history, Pos, HISTORY_CAPACITY};

verus! {

/// The history after recording the generations `gens`, oldest first, in
/// front of `h`, one call of `next` for each.
pub open spec fn history_after(h: Seq<Set<Pos>>, gens: Seq<Set<Pos>>) -> Seq<Set<Pos>>
    decreases gens.len(),
{
    if gens.len() == 0 {
        h
    } else {
        push_history(history_after(h, gens.drop_last()), gens.last())
    }
}

/// The history is bounded: after `k` calls of `next` it holds
/// `min(len + k, HISTORY_CAPACITY)` entries, the newest first, so `prev`
/// can rewind that many times before it changes nothing; once more than
/// `HISTORY_CAPACITY` generations were recorded, the last rewind restores
/// the oldest generation still kept.
pub proof fn lemma_history_bound(h: Seq<Set<Pos>>, gens: Seq<Set<Pos>>)
    requires
        h.len() <= HISTORY_CAPACITY,
    ensures
        history_after(h, gens).len() == if h.len() + gens.len() < HISTORY_CAPACITY {
            (h.len() + gens.len()) as int
        } else {
            HISTORY_CAPACITY as int
        },
        forall|i: int|
            0 <= i < history_after(h, gens).len() && i < gens.len() ==> #[trigger] history_after(
                h,
                gens,
            )[i] == gens[gens.len() - 1 - i],
    decreases gens.len(),
{
    if gens.len() > 0 {
        lemma_history_bound(h, gens.drop_last());
        let prev = history_after(h, gens.drop_last());
        let cur = history_after(h, gens);
        assert forall|i: int| 0 <= i < cur.len() && i < gens.len() implies #[trigger] cur[i] == gens[gens.len() - 1 - i] by {
            if i > 0 {
                assert(cur[i] == prev[i - 1]);
                assert(gens.drop_last()[gens.len() - 1 - i] == gens[gens.len() - 1 - i]);
            }
        }
    }
}

/// The live set and history after `i` calls of `prev`, from live set
/// `alive` and history `h`: each call restores the newest entry and drops
/// it, and changes nothing once the history is empty.
pub open spec fn rewound(alive: Set<Pos>, h: Seq<Set<Pos>>, i: nat) -> (Set<Pos>, Seq<Set<Pos>>)
    decreases i,
{
    if i == 0 {
        (alive, h)
    } else {
        let (a, h2) = rewound(alive, h, (i - 1) as nat);
        if h2.len() == 0 {
            (a, h2)
        } else {
            (h2[0], h2.drop_first())
        }
    }
}

proof fn lemma_rewound(alive: Set<Pos>, h: Seq<Set<Pos>>, i: nat)
    ensures
        1 <= i <= h.len() ==> rewound(alive, h, i) == (h[i - 1], h.subrange(i as int, h.len() as int)),
        i > h.len() && h.len() > 0 ==> rewound(alive, h, i) == (h[h.len() - 1], Seq::<Set<Pos>>::empty()),
        i >= h.len() ==> rewound(alive, h, i).1.len() == 0,
    decreases i,
{
    if i > 0 {
        lemma_rewound(alive, h, (i - 1) as nat);
        let prev = rewound(alive, h, (i - 1) as nat);
        assert(rewound(alive, h, i) == if prev.1.len() == 0 {
            prev
        } else {
            (prev.1[0], prev.1.drop_first())
        });
        if i <= h.len() {
            if i == 1 {
                assert(prev == (alive, h));
                assert(h.drop_first() =~= h.subrange(1, h.len() as int));
            } else {
                let h2 = h.subrange(i - 1, h.len() as int);
                assert(prev.1 == h2);
                assert(h2[0] == h[i - 1]);
                assert(h2.drop_first() =~= h.subrange(i as int, h.len() as int));
            }
            assert(h.subrange(h.len() as int, h.len() as int).len() == 0);
        } else if h.len() > 0 {
            if i == h.len() + 1 {
                assert(prev.1.len() == 0);
                assert(prev.1 =~= Seq::<Set<Pos>>::empty());
            }
        }
    }
}

/// A run of more than `HISTORY_CAPACITY` generations `gens[0]` to
/// `gens[k]`, from a fresh board (empty history), then rewound: the `i`-th
/// call of `prev` restores `gens[k - i]` for `i` up to the capacity; after
/// that the history is empty, and every further `prev` leaves the oldest
/// kept generation, `gens[k - HISTORY_CAPACITY]`, in place.
pub proof fn lemma_rewind_after_run(gens: Seq<Set<Pos>>, i: nat)
    requires
        gens.len() > HISTORY_CAPACITY + 1,
    ensures
        ({
            let k = gens.len() - 1;
            let h = history_after(Seq::empty(), gens.drop_last());
            let r = rewound(gens[k], h, i);
            &&& h.len() == HISTORY_CAPACITY
            &&& 1 <= i <= HISTORY_CAPACITY ==> r.0 == gens[k - i]
            &&& i >= HISTORY_CAPACITY ==> r.0 == gens[k - HISTORY_CAPACITY] && r.1.len() == 0
        }),
{
    let k = gens.len() - 1;
    let g = gens.drop_last();
    let h = history_after(Seq::empty(), g);
    lemma_history_bound(Seq::empty(), g);
    lemma_rewound(gens[k], h, i);
    if 1 <= i <= HISTORY_CAPACITY {
        assert(h[i - 1] == g[g.len() - 1 - (i - 1)]);
    }
    if i >= HISTORY_CAPACITY {
        let last = HISTORY_CAPACITY - 1;
        assert(h[last] == g[g.len() - 1 - last]);
    }
}

/// A board with no live cell stays empty.
pub proof fn lemma_empty_stays_empty(n: int)
    ensures
        next_generation(Set::<Pos>::empty(), n) == Set::<Pos>::empty(),
{
    assert(next_generation(Set::<Pos>::empty(), n) =~= Set::<Pos>::empty());
}

/// The positions of `s` moved by `d`.
pub open spec fn shifted(s: Set<Pos>, d: Pos) -> Set<Pos> {
    s.map(|p: Pos| (p.0 + d.0, p.1 + d.1))
}

proof fn lemma_split_joined(rows: Seq<Seq<char>>)
    requires
        forall|j: int, i: int| 0 <= j < rows.len() && 0 <= i < rows[j].len() ==> is_status_char(#[trigger] rows[j][i]),
    ensures
        split_lines(rows.map_values(|r: Seq<char>| with_newline(r)).flatten()) == rows,
    decreases rows.len(),
{
    let l = rows.map_values(|r: Seq<char>| with_newline(r));
    if rows.len() == 0 {
        assert(l.flatten() =~= Seq::<char>::empty());
        assert(split_lines(l.flatten()) =~= rows);
    } else {
        let tail = rows.drop_first();
        assert(l.drop_first() =~= tail.map_values(|r: Seq<char>| with_newline(r)));
        assert forall|j: int, i: int| 0 <= j < tail.len() && 0 <= i < tail[j].len() implies is_status_char(#[trigger] tail[j][i]) by {
            assert(tail[j] == rows[j + 1]);
        }
        lemma_split_joined(tail);
        let r0 = rows[0];
        let rest = l.drop_first().flatten();
        let t = l.flatten();
        assert(t == l[0] + rest);
        assert(l[0] == r0.push('\n'));
        assert forall|j: int| 0 <= j < r0.len() implies t[j] != '\n' by {
            assert(t[j] == r0[j]);
            assert(is_status_char(rows[0][j]));
        }
        if r0.len() > 0 {
            assert(is_status_char(rows[0][r0.len() - 1]));
        }
        assert(strip_cr(r0) == r0);
        assert(t[r0.len() as int] == '\n');
        lemma_first_newline(t, r0.len() as int);
        assert(first_newline(t) == r0.len());
        assert(t.subrange(0, r0.len() as int) =~= r0);
        assert(t.subrange(r0.len() as int + 1, t.len() as int) =~= rest);
        assert(split_lines(t) == seq![strip_cr(r0)] + split_lines(rest));
        assert(seq![r0] + tail =~= rows);
    }
}

proof fn lemma_width_uniform(rows: Seq<Seq<char>>, w: nat)
    requires
        rows.len() > 0,
        forall|j: int| 0 <= j < rows.len() ==> (#[trigger] rows[j]).len() == w,
    ensures
        seed_width(rows) == w,
    decreases rows.len(),
{
    assert(rows.last().len() == w);
    if rows.len() > 1 {
        assert forall|j: int| 0 <= j < rows.drop_last().len() implies (#[trigger] rows.drop_last()[j]).len() == w by {
            assert(rows.drop_last()[j] == rows[j]);
        }
        lemma_width_uniform(rows.drop_last(), w);
    } else {
        assert(rows.drop_last().len() == 0);
        assert(seed_width(rows.drop_last()) == 0);
    }
}

proof fn lemma_int_min(xs: Set<int>, lo: int, hi: int)
    requires
        exists|x: int| xs.contains(x),
        forall|x: int| #[trigger] xs.contains(x) ==> lo <= x < hi,
    ensures
        exists|m: int| xs.contains(m) && forall|x: int| #[trigger] xs.contains(x) ==> m <= x,
    decreases hi - lo,
{
    let x = choose|x: int| xs.contains(x);
    if !xs.contains(lo) {
        lemma_int_min(xs, lo + 1, hi);
    } else {
        assert(forall|x: int| #[trigger] xs.contains(x) ==> lo <= x);
    }
}

proof fn lemma_int_max(xs: Set<int>, lo: int, hi: int)
    requires
        exists|x: int| xs.contains(x),
        forall|x: int| #[trigger] xs.contains(x) ==> lo <= x < hi,
    ensures
        exists|m: int| xs.contains(m) && forall|x: int| #[trigger] xs.contains(x) ==> x <= m,
    decreases hi - lo,
{
    let x = choose|x: int| xs.contains(x);
    if !xs.contains(hi - 1) {
        lemma_int_max(xs, lo, hi - 1);
    } else {
        assert(forall|x: int| #[trigger] xs.contains(x) ==> x <= hi - 1);
    }
}

/// A non-empty set of positions of an `n × n` board has a bounding box.
proof fn lemma_has_bounding_box(s: Set<Pos>, n: int)
    requires
        exists|p: Pos| s.contains(p),
        forall|p: Pos| #[trigger] s.contains(p) ==> in_range(n, p.0, p.1),
    ensures
        is_bounding_box(s, bounding_box(s)),
{
    let p = choose|p: Pos| s.contains(p);
    let xs = s.map(|q: Pos| q.0);
    let ys = s.map(|q: Pos| q.1);
    assert(xs.contains(p.0));
    assert(ys.contains(p.1));
    assert forall|x: int| #[trigger] xs.contains(x) implies 0 <= x < n by {
        let q = choose|q: Pos| s.contains(q) && q.0 == x;
    }
    assert forall|y: int| #[trigger] ys.contains(y) implies 0 <= y < n by {
        let q = choose|q: Pos| s.contains(q) && q.1 == y;
    }
    lemma_int_min(xs, 0, n);
    lemma_int_max(xs, 0, n);
    lemma_int_min(ys, 0, n);
    lemma_int_max(ys, 0, n);
    let x0 = choose|m: int| xs.contains(m) && forall|x: int| #[trigger] xs.contains(x) ==> m <= x;
    let x1 = choose|m: int| xs.contains(m) && forall|x: int| #[trigger] xs.contains(x) ==> x <= m;
    let y0 = choose|m: int| ys.contains(m) && forall|y: int| #[trigger] ys.contains(y) ==> m <= y;
    let y1 = choose|m: int| ys.contains(m) && forall|y: int| #[trigger] ys.contains(y) ==> y <= m;
    let b = (x0, y0, x1, y1);
    assert forall|q: Pos| #[trigger] s.contains(q) implies b.0 <= q.0 <= b.2 && b.1 <= q.1 <= b.3 by {
        assert(xs.contains(q.0));
        assert(ys.contains(q.1));
    }
    let q0 = choose|q: Pos| s.contains(q) && q.0 == x0;
    let q1 = choose|q: Pos| s.contains(q) && q.1 == y0;
    let q2 = choose|q: Pos| s.contains(q) && q.0 == x1;
    let q3 = choose|q: Pos| s.contains(q) && q.1 == y1;
    assert(s.contains(q0) && s.contains(q1) && s.contains(q2) && s.contains(q3));
    assert(is_bounding_box(s, b));
}

/// Saving and loading round-trip: the snapshot text of the live set of an
/// `n × n` board (what `board_to_string` gives), loaded onto an `m × m`
/// board on which its bounding box fits (as `from_text` does), gives back
/// the same live set moved by one offset; every line of the text holds
/// glyphs only, so loading it succeeds.
pub proof fn lemma_round_trip(s: Set<Pos>, n: int, m: int)
    requires
        0 <= m,
        forall|p: Pos| #[trigger] s.contains(p) ==> in_range(n, p.0, p.1),
        forall|p: Pos, q: Pos| #[trigger] s.contains(p) && #[trigger] s.contains(q) ==> p.0 - q.0 < m
            && p.1 - q.1 < m,
    ensures
        seed_is_valid(split_lines(snapshot_text(s))),
        exists|d: Pos| seed_alive(m, split_lines(snapshot_text(s))) == shifted(s, d),
{
    let rows = snapshot_rows(s);
    assert forall|j: int, i: int| 0 <= j < rows.len() && 0 <= i < rows[j].len() implies is_status_char(#[trigger] rows[j][i]) by {
        let b = bounding_box(s);
        assert(rows[j] == snapshot_row(s, b.1 + j, b.0, b.2));
    }
    lemma_split_joined(rows);
    let lines = split_lines(snapshot_text(s));
    assert(lines == rows);
    if exists|p: Pos| s.contains(p) {
        let b = bounding_box(s);
        lemma_has_bounding_box(s, n);
        assert(is_bounding_box(s, b));
        let q0 = choose|p: Pos| #[trigger] s.contains(p) && p.0 == b.0;
        let q1 = choose|p: Pos| #[trigger] s.contains(p) && p.1 == b.1;
        let q2 = choose|p: Pos| #[trigger] s.contains(p) && p.0 == b.2;
        let q3 = choose|p: Pos| #[trigger] s.contains(p) && p.1 == b.3;
        assert(s.contains(q2) && s.contains(q0) && s.contains(q3) && s.contains(q1));
        assert(b.2 - b.0 < m);
        assert(b.3 - b.1 < m);
        let w = (b.2 - b.0 + 1) as nat;
        lemma_width_uniform(rows, w);
        let o = seed_origin(m, rows);
        let d = (o.0 - b.0, o.1 - b.1);
        assert(seed_alive(m, lines) =~= shifted(s, d));
    } else {
        assert(s =~= Set::<Pos>::empty());
        assert(rows.len() == 0);
        assert(seed_alive(m, lines) =~= shifted(s, (0, 0)));
    }
}

/// The 2 × 2 block with top-left corner `(x, y)`.
pub open spec fn block(x: int, y: int) -> Set<Pos> {
    set![(x, y), (x + 1, y), (x, y + 1), (x + 1, y + 1)]
}

/// A block that lies on the board is a still life: the next generation is
/// the block again.
pub proof fn lemma_block_is_still(n: int, x: int, y: int)
    requires
        0 <= x && x + 1 < n,
        0 <= y && y + 1 < n,
    ensures
        next_generation(block(x, y), n) == block(x, y),
{
    let b = block(x, y);
    assert forall|p: Pos| #[trigger] next_generation(b, n).contains(p) <==> b.contains(p) by {
        if b.contains(p) {
            assert(live_neighbors(b, p.0, p.1) == 3);
        } else if in_range(n, p.0, p.1) {
            assert(live_neighbors(b, p.0, p.1) <= 2);
        }
    }
    assert(next_generation(b, n) =~= b);
}

/// The horizontal blinker: three cells in a row, centred on `(x, y)`.
pub open spec fn blinker_horizontal(x: int, y: int) -> Set<Pos> {
    set![(x - 1, y), (x, y), (x + 1, y)]
}

/// The vertical blinker: three cells in a column, centred on `(x, y)`.
pub open spec fn blinker_vertical(x: int, y: int) -> Set<Pos> {
    set![(x, y - 1), (x, y), (x, y + 1)]
}

proof fn lemma_horizontal_turns_vertical(n: int, x: int, y: int)
    requires
        1 <= x && x + 1 < n,
        1 <= y && y + 1 < n,
    ensures
        next_generation(blinker_horizontal(x, y), n) == blinker_vertical(x, y),
{
    let h = blinker_horizontal(x, y);
    let v = blinker_vertical(x, y);
    assert forall|p: Pos| #[trigger] next_generation(h, n).contains(p) <==> v.contains(p) by {
        if v.contains(p) {
            if p == (x, y) {
                assert(live_neighbors(h, p.0, p.1) == 2);
            } else {
                assert(live_neighbors(h, p.0, p.1) == 3);
            }
        } else if h.contains(p) {
            assert(live_neighbors(h, p.0, p.1) == 1);
        } else if in_range(n, p.0, p.1) {
            assert(live_neighbors(h, p.0, p.1) <= 2);
        }
    }
    assert(next_generation(h, n) =~= v);
}

proof fn lemma_vertical_turns_horizontal(n: int, x: int, y: int)
    requires
        1 <= x && x + 1 < n,
        1 <= y && y + 1 < n,
    ensures
        next_generation(blinker_vertical(x, y), n) == blinker_horizontal(x, y),
{
    let h = blinker_horizontal(x, y);
    let v = blinker_vertical(x, y);
    assert forall|p: Pos| #[trigger] next_generation(v, n).contains(p) <==> h.contains(p) by {
        if h.contains(p) {
            if p == (x, y) {
                assert(live_neighbors(v, p.0, p.1) == 2);
            } else {
                assert(live_neighbors(v, p.0, p.1) == 3);
            }
        } else if v.contains(p) {
            assert(live_neighbors(v, p.0, p.1) == 1);
        } else if in_range(n, p.0, p.1) {
            assert(live_neighbors(v, p.0, p.1) <= 2);
        }
    }
    assert(next_generation(v, n) =~= h);
}

/// A blinker whose turns both lie on the board oscillates with period
/// two: horizontal becomes vertical and vertical becomes horizontal.
pub proof fn lemma_blinker_oscillates(n: int, x: int, y: int)
    requires
        1 <= x && x + 1 < n,
        1 <= y && y + 1 < n,
    ensures
        next_generation(blinker_horizontal(x, y), n) == blinker_vertical(x, y),
        next_generation(blinker_vertical(x, y), n) == blinker_horizontal(x, y),
{
    lemma_horizontal_turns_vertical(n, x, y);
    lemma_vertical_turns_horizontal(n, x, y);
}

} // verus!
