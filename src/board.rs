//! The board: a dense grid of cells, the set of live cells kept in step with
//! it, and the bounded history of earlier generations.

use vstd::prelude::*;

pub mod cell;
pub mod seed;
pub mod snapshot;
pub mod laws;

use std::collections::VecDeque;

use cell::{char_status, inverse_of, rule, Cell, STATUS};
use seed::{
    chars_of, lines_of, rows_are_valid, seed_alive, seed_alive_at, seed_is_valid, seed_origin,
    seed_rows, split_lines, width_of,
};
use snapshot::{
    bounding_box, is_bounding_box, lemma_bounding_box_unique, push_char, snapshot_row,
    snapshot_rows, snapshot_text, with_newline,
};

verus! {

/// How many earlier generations the board keeps for rewinding.
pub const HISTORY_CAPACITY: usize = 10;

/// A position on the board, as `(x, y)`.
pub type Pos = (int, int);

/// The positions that the live cells of a list name; dead cells name none.
pub open spec fn live_positions(cells: Seq<Cell>) -> Set<Pos> {
    Set::new(
        |p: Pos|
            exists|i: int|
                0 <= i < cells.len() && cells[i].status == STATUS::ALIVE && #[trigger] cells[i].x
                    == p.0 && cells[i].y == p.1,
    )
}

/// Whether `(x, y)` lies on an `n × n` board.
pub open spec fn in_range(n: int, x: int, y: int) -> bool {
    0 <= x < n && 0 <= y < n
}

/// The positions that a list of cells names.
pub open spec fn positions(cells: Seq<Cell>) -> Set<Pos> {
    Set::new(
        |p: Pos|
            exists|i: int| 0 <= i < cells.len() && #[trigger] cells[i].x == p.0 && cells[i].y == p.1,
    )
}

/// The status at `(x, y)` when `alive` is the set of live positions.
pub open spec fn status_in(alive: Set<Pos>, x: int, y: int) -> STATUS {
    if alive.contains((x, y)) {
        STATUS::ALIVE
    } else {
        STATUS::DEAD
    }
}

/// One when `(x, y)` is alive, zero otherwise.
pub open spec fn alive_count(alive: Set<Pos>, x: int, y: int) -> nat {
    if alive.contains((x, y)) {
        1
    } else {
        0
    }
}

/// How many of the eight positions around `(x, y)` are alive.
pub open spec fn live_neighbors(alive: Set<Pos>, x: int, y: int) -> nat {
    alive_count(alive, x - 1, y - 1) + alive_count(alive, x, y - 1) + alive_count(alive, x + 1, y - 1)
        + alive_count(alive, x - 1, y) + alive_count(alive, x + 1, y)
        + alive_count(alive, x - 1, y + 1) + alive_count(alive, x, y + 1)
        + alive_count(alive, x + 1, y + 1)
}

/// The live positions of the generation after `alive` on an `n × n` board.
pub open spec fn next_generation(alive: Set<Pos>, n: int) -> Set<Pos> {
    Set::new(
        |p: Pos|
            in_range(n, p.0, p.1) && rule(status_in(alive, p.0, p.1), live_neighbors(alive, p.0, p.1))
                == STATUS::ALIVE,
    )
}

/// Whether `p` is one of the eight positions around `q`.
pub open spec fn is_neighbor(p: Pos, q: Pos) -> bool {
    p != q && -1 <= p.0 - q.0 <= 1 && -1 <= p.1 - q.1 <= 1
}

/// The offset of the `k`-th of the eight neighbours, row by row.
pub open spec fn offset(k: int) -> (int, int) {
    if k == 0 {
        (-1, -1)
    } else if k == 1 {
        (0, -1)
    } else if k == 2 {
        (1, -1)
    } else if k == 3 {
        (-1, 0)
    } else if k == 4 {
        (1, 0)
    } else if k == 5 {
        (-1, 1)
    } else if k == 6 {
        (0, 1)
    } else {
        (1, 1)
    }
}

/// The `k`-th neighbour of `q`.
pub open spec fn neighbor(q: Pos, k: int) -> Pos {
    (q.0 + offset(k).0, q.1 + offset(k).1)
}

proof fn lemma_neighbor_offsets(p: Pos, q: Pos)
    ensures
        is_neighbor(p, q) <==> exists|k: int| 0 <= k < 8 && p == #[trigger] neighbor(q, k),
{
    if is_neighbor(p, q) {
        let dx = p.0 - q.0;
        let dy = p.1 - q.1;
        let k: int = if dy == -1 {
            dx + 1
        } else if dy == 0 {
            if dx == -1 {
                3
            } else {
                4
            }
        } else {
            dx + 6
        };
        assert(p == neighbor(q, k));
    }
    if exists|k: int| 0 <= k < 8 && p == #[trigger] neighbor(q, k) {
        let k = choose|k: int| 0 <= k < 8 && p == #[trigger] neighbor(q, k);
        assert(is_neighbor(p, q));
    }
}

/// How many of the first `k` neighbours of `q` are alive.
pub open spec fn live_among(alive: Set<Pos>, q: Pos, k: nat) -> nat
    decreases k,
{
    if k == 0 {
        0
    } else {
        live_among(alive, q, (k - 1) as nat) + alive_count(
            alive,
            neighbor(q, k - 1).0,
            neighbor(q, k - 1).1,
        )
    }
}

/// The offset of the `k`-th neighbour.
fn offset_of(k: usize) -> (r: (i32, i32))
    requires
        k < 8,
    ensures
        r.0 == offset(k as int).0,
        r.1 == offset(k as int).1,
{
    if k == 0 {
        (-1, -1)
    } else if k == 1 {
        (0, -1)
    } else if k == 2 {
        (1, -1)
    } else if k == 3 {
        (-1, 0)
    } else if k == 4 {
        (1, 0)
    } else if k == 5 {
        (-1, 1)
    } else if k == 6 {
        (0, 1)
    } else {
        (1, 1)
    }
}

proof fn lemma_positions_push(s: Seq<Cell>, c: Cell)
    ensures
        positions(s.push(c)) == positions(s).insert((c.x as int, c.y as int)),
{
    let t = s.push(c);
    assert forall|p: Pos| #[trigger] positions(t).contains(p) implies positions(s).insert(
        (c.x as int, c.y as int),
    ).contains(p) by {
        let i = choose|i: int| 0 <= i < t.len() && #[trigger] t[i].x == p.0 && t[i].y == p.1;
        if i < s.len() {
            assert(s[i].x == p.0);
        }
    }
    assert forall|p: Pos| #[trigger] positions(s).insert((c.x as int, c.y as int)).contains(p) implies positions(
        t,
    ).contains(p) by {
        if p == (c.x as int, c.y as int) {
            assert(t[s.len() as int].x == p.0);
        } else {
            let i = choose|i: int| 0 <= i < s.len() && #[trigger] s[i].x == p.0 && s[i].y == p.1;
            assert(t[i].x == p.0);
        }
    }
    assert(positions(t) =~= positions(s).insert((c.x as int, c.y as int)));
}

proof fn lemma_live_positions_push(s: Seq<Cell>, c: Cell)
    ensures
        live_positions(s.push(c)) == if c.status == STATUS::ALIVE {
            live_positions(s).insert((c.x as int, c.y as int))
        } else {
            live_positions(s)
        },
{
    let t = s.push(c);
    let target = if c.status == STATUS::ALIVE {
        live_positions(s).insert((c.x as int, c.y as int))
    } else {
        live_positions(s)
    };
    assert forall|p: Pos| #[trigger] live_positions(t).contains(p) implies target.contains(p) by {
        let i = choose|i: int|
            0 <= i < t.len() && t[i].status == STATUS::ALIVE && #[trigger] t[i].x == p.0 && t[i].y == p.1;
        if i < s.len() {
            assert(s[i].x == p.0);
        }
    }
    assert forall|p: Pos| #[trigger] target.contains(p) implies live_positions(t).contains(p) by {
        if c.status == STATUS::ALIVE && p == (c.x as int, c.y as int) {
            assert(t[s.len() as int].x == p.0);
        } else {
            let i = choose|i: int|
                0 <= i < s.len() && s[i].status == STATUS::ALIVE && #[trigger] s[i].x == p.0 && s[i].y == p.1;
            assert(t[i].x == p.0);
        }
    }
    assert(live_positions(t) =~= target);
}

proof fn lemma_live_positions_all_alive(s: Seq<Cell>)
    requires
        forall|i: int| 0 <= i < s.len() ==> (#[trigger] s[i]).status == STATUS::ALIVE,
    ensures
        live_positions(s) == positions(s),
{
    assert forall|p: Pos| #[trigger] positions(s).contains(p) implies live_positions(s).contains(p) by {
        let i = choose|i: int| 0 <= i < s.len() && #[trigger] s[i].x == p.0 && s[i].y == p.1;
        assert(s[i].status == STATUS::ALIVE);
    }
    assert forall|p: Pos| #[trigger] live_positions(s).contains(p) implies positions(s).contains(p) by {
        let i = choose|i: int|
            0 <= i < s.len() && s[i].status == STATUS::ALIVE && #[trigger] s[i].x == p.0 && s[i].y == p.1;
    }
    assert(live_positions(s) =~= positions(s));
}

/// An `n × n` grid of clear marks.
fn clear_marks(n: usize) -> (r: Vec<Vec<bool>>)
    ensures
        r@.len() == n,
        forall|y: int| 0 <= y < n ==> (#[trigger] r@[y])@.len() == n,
        forall|y: int, x: int| 0 <= y < n && 0 <= x < n ==> !(#[trigger] r@[y]@[x]),
{
    let mut r: Vec<Vec<bool>> = Vec::new();
    let mut y: usize = 0;
    while y < n
        invariant
            y <= n,
            r@.len() == y,
            forall|yy: int| 0 <= yy < y ==> (#[trigger] r@[yy])@.len() == n,
            forall|yy: int, x: int| 0 <= yy < y && 0 <= x < n ==> !(#[trigger] r@[yy]@[x]),
        decreases n - y,
    {
        let mut row: Vec<bool> = Vec::new();
        let mut x: usize = 0;
        while x < n
            invariant
                x <= n,
                row@.len() == x,
                forall|xx: int| 0 <= xx < x ==> !(#[trigger] row@[xx]),
            decreases n - x,
        {
            row.push(false);
            x = x + 1;
        }
        r.push(row);
        y = y + 1;
    }
    r
}

/// A copy of a list of cells.
fn copy_cells(v: &Vec<Cell>) -> (r: Vec<Cell>)
    ensures
        r@ == v@,
{
    let mut r: Vec<Cell> = Vec::new();
    let mut i: usize = 0;
    while i < v.len()
        invariant
            i <= v@.len(),
            r@ == v@.subrange(0, i as int),
        decreases v@.len() - i,
    {
        r.push(v[i]);
        i = i + 1;
    }
    assert(r@ == v@);
    r
}

/// The zone of interest: the positions of the board next to a live one.
/// Only these can be alive in the next generation.
pub open spec fn interest_zone(alive: Set<Pos>, n: int) -> Set<Pos> {
    Set::new(
        |p: Pos| in_range(n, p.0, p.1) && exists|q: Pos| alive.contains(q) && is_neighbor(p, q),
    )
}

/// Only positions next to a live cell can be alive in the next generation.
proof fn lemma_next_within_interest(alive: Set<Pos>, n: int)
    ensures
        next_generation(alive, n).subset_of(interest_zone(alive, n)),
{
    assert forall|p: Pos| #[trigger] next_generation(alive, n).contains(p) implies interest_zone(
        alive,
        n,
    ).contains(p) by {
        assert(live_neighbors(alive, p.0, p.1) > 0);
        let k: int = if alive_count(alive, p.0 - 1, p.1 - 1) > 0 {
            0
        } else if alive_count(alive, p.0, p.1 - 1) > 0 {
            1
        } else if alive_count(alive, p.0 + 1, p.1 - 1) > 0 {
            2
        } else if alive_count(alive, p.0 - 1, p.1) > 0 {
            3
        } else if alive_count(alive, p.0 + 1, p.1) > 0 {
            4
        } else if alive_count(alive, p.0 - 1, p.1 + 1) > 0 {
            5
        } else if alive_count(alive, p.0, p.1 + 1) > 0 {
            6
        } else {
            7
        };
        let q = neighbor(p, k);
        assert(alive.contains(q));
        lemma_neighbor_offsets(q, p);
        assert(is_neighbor(p, q));
    }
}

/// The history after recording `alive` in front of `h`, the oldest entry
/// dropped once there are more than `HISTORY_CAPACITY`.
pub open spec fn push_history(h: Seq<Set<Pos>>, alive: Set<Pos>) -> Seq<Set<Pos>> {
    let h2 = seq![alive] + h;
    if h2.len() > HISTORY_CAPACITY {
        h2.subrange(0, HISTORY_CAPACITY as int)
    } else {
        h2
    }
}

/// The board: a square grid of cells, the list of its live cells, the
/// history of earlier live sets (newest first) and the live set it was
/// created with; `seen` is a grid of scratch marks, all clear between
/// calls, that collecting the zone of interest uses to take each position
/// once.
pub struct Board {
    rows: Vec<Vec<Cell>>,
    actual: Vec<Cell>,
    history: VecDeque<Vec<Cell>>,
    initial_state: Vec<Cell>,
    seen: Vec<Vec<bool>>,
}

impl Board {
    /// The cell that a lookup at `(x, y)` gives: the board's cell there, or
    /// a dead cell at `(0, 0)` off the board.
    pub open spec fn cell_or_dead(&self, x: int, y: int) -> Cell {
        if in_range(self.size() as int, x, y) {
            Cell { x: x as i32, y: y as i32, status: status_in(self.alive(), x, y) }
        } else {
            Cell { x: 0, y: 0, status: STATUS::DEAD }
        }
    }

    /// The side of the board.
    pub closed spec fn size(&self) -> nat {
        self.rows@.len()
    }

    /// The live positions, as the grid holds them.
    pub closed spec fn alive(&self) -> Set<Pos> {
        Set::new(
            |p: Pos|
                in_range(self.rows@.len() as int, p.0, p.1)
                    && self.rows@[p.1]@[p.0].status == STATUS::ALIVE,
        )
    }

    /// The live positions, as the list of live cells holds them.
    pub closed spec fn active(&self) -> Set<Pos> {
        positions(self.actual@)
    }

    /// The recorded live sets, newest first.
    pub closed spec fn history_view(&self) -> Seq<Set<Pos>> {
        self.history@.map_values(|v: Vec<Cell>| positions(v@))
    }

    /// The live set that the board was created with.
    pub closed spec fn initial(&self) -> Set<Pos> {
        positions(self.initial_state@)
    }

    /// The board's invariant: the grid is square and each cell knows its
    /// position; the list of live cells names each live cell of the grid
    /// once and nothing else; the history is bounded and every recorded
    /// position lies on the board; the starting live cells are alive; no
    /// scratch mark is set.
    pub closed spec fn wf(&self) -> bool {
        let n = self.rows@.len() as int;
        &&& n < 0x7fff_ffff
        &&& forall|y: int| 0 <= y < n ==> (#[trigger] self.rows@[y])@.len() == n
        &&& forall|y: int, x: int|
            in_range(n, x, y) ==> (#[trigger] self.rows@[y]@[x]).x == x && self.rows@[y]@[x].y == y
        &&& forall|i: int|
            0 <= i < self.actual@.len() ==> {
                let c = #[trigger] self.actual@[i];
                &&& c.status == STATUS::ALIVE
                &&& in_range(n, c.x as int, c.y as int)
                &&& self.rows@[c.y as int]@[c.x as int].status == STATUS::ALIVE
            }
        &&& forall|i: int, j: int|
            0 <= i < self.actual@.len() && 0 <= j < self.actual@.len() && i != j ==> (
            #[trigger] self.actual@[i]).x != (#[trigger] self.actual@[j]).x || self.actual@[i].y
                != self.actual@[j].y
        &&& forall|p: Pos| #[trigger] self.alive().contains(p) ==> self.active().contains(p)
        &&& self.history@.len() <= HISTORY_CAPACITY
        &&& forall|k: int, i: int|
            0 <= k < self.history@.len() && 0 <= i < self.history@[k]@.len() ==> in_range(
                n,
                (#[trigger] self.history@[k]@[i]).x as int,
                self.history@[k]@[i].y as int,
            )
        &&& self.seen@.len() == n
        &&& forall|y: int| 0 <= y < n ==> (#[trigger] self.seen@[y])@.len() == n
        &&& forall|y: int, x: int| in_range(n, x, y) ==> !(#[trigger] self.seen@[y]@[x])
        &&& forall|i: int|
            0 <= i < self.initial_state@.len() ==> in_range(
                n,
                (#[trigger] self.initial_state@[i]).x as int,
                self.initial_state@[i].y as int,
            ) && self.initial_state@[i].status == STATUS::ALIVE
    }

    /// The list of live cells and the grid agree: a position is in the
    /// list exactly when its cell on the board is alive. Every board that
    /// `new`, `from_text`, `set_cell`, `next` and `prev` hand back is
    /// well formed, so this holds after any sequence of them.
    pub proof fn lemma_active_is_alive(&self)
        requires
            self.wf(),
        ensures
            self.active() == self.alive(),
            forall|x: int, y: int|
                #[trigger] self.active().contains((x, y)) <==> in_range(self.size() as int, x, y)
                    && self.cell_or_dead(x, y).status == STATUS::ALIVE,
    {
        assert forall|p: Pos| #[trigger] self.active().contains(p) implies self.alive().contains(
            p,
        ) by {
            let i = choose|i: int|
                0 <= i < self.actual@.len() && #[trigger] self.actual@[i].x == p.0
                    && self.actual@[i].y == p.1;
            assert(self.actual@[i].x == p.0);
        }
        assert(self.active() =~= self.alive());
    }

    /// The side of a board fits in an `i32` coordinate, with room for the
    /// neighbours one step beyond either edge.
    pub proof fn lemma_size_fits(&self)
        requires
            self.wf(),
        ensures
            self.size() < 0x7fff_ffff,
    {
    }

    /// The edge of the board is dead: a position off the board is never
    /// alive, and a lookup there gives a dead cell, so neighbour counts
    /// never wrap around.
    pub proof fn lemma_off_board_is_dead(&self, x: int, y: int)
        requires
            !in_range(self.size() as int, x, y),
        ensures
            !self.alive().contains((x, y)),
            self.cell_or_dead(x, y).status == STATUS::DEAD,
            alive_count(self.alive(), x, y) == 0,
    {
    }

    proof fn lemma_alive_in_range(&self, p: Pos)
        requires
            self.alive().contains(p),
        ensures
            in_range(self.size() as int, p.0, p.1),
    {
    }

    /// The status that the pattern gives at column `i` of row `j`, or `None`
    /// outside it.
    fn get_status_or_dead(i: i128, j: i128, obj_b: &Vec<Vec<char>>) -> (r: Option<STATUS>)
        requires
            seed_is_valid(obj_b@.map_values(|r: Vec<char>| r@)),
        ensures
            r is Some <==> 0 <= j < obj_b@.len() && 0 <= i < obj_b@[j as int]@.len(),
            r is Some ==> r->0 == char_status(obj_b@[j as int]@[i as int]),
            r == Some(STATUS::ALIVE) <==> seed_alive_at(
                obj_b@.map_values(|r: Vec<char>| r@),
                i as int,
                j as int,
            ),
    {
        let ghost v = obj_b@.map_values(|r: Vec<char>| r@);
        if j < 0 || i < 0 || j >= obj_b.len() as i128 {
            return None;
        }
        let row = &obj_b[j as usize];
        if i >= row.len() as i128 {
            return None;
        }
        assert(v[j as int] == row@);
        assert(cell::is_status_char(v[j as int][i as int]));
        Some(STATUS::get_from_char(row[i as usize]))
    }

    /// The cell at `(x, y)` of a board whose pattern starts at `(ox, oy)`.
    fn get_cell_from_char(obj_b: &Vec<Vec<char>>, ox: i128, oy: i128, x: usize, y: usize) -> (r: Cell)
        requires
            seed_is_valid(obj_b@.map_values(|r: Vec<char>| r@)),
            x < 0x7fff_ffff,
            y < 0x7fff_ffff,
            -0x1_0000_0000_0000_0000 <= ox <= 0x1_0000_0000_0000_0000,
            -0x1_0000_0000_0000_0000 <= oy <= 0x1_0000_0000_0000_0000,
        ensures
            r == (Cell {
                x: x as i32,
                y: y as i32,
                status: if seed_alive_at(
                    obj_b@.map_values(|r: Vec<char>| r@),
                    x - ox,
                    y - oy,
                ) {
                    STATUS::ALIVE
                } else {
                    STATUS::DEAD
                },
            }),
    {
        let res = match Board::get_status_or_dead(x as i128 - ox, y as i128 - oy, obj_b) {
            None => STATUS::DEAD,
            Some(status) => status,
        };
        Cell::new(x as i32, y as i32, res)
    }

    /// A board of `size × size` cells with the seed pattern `obj` centred on
    /// it; what falls off the board is dropped. Each row of `obj` is a
    /// string of `'.'` (dead) and `'O'` (alive), rows may differ in length.
    pub fn new(size: usize, obj: Vec<&str>) -> (b: Self)
        requires
            size < 0x7fff_ffff,
            seed_is_valid(seed_rows(obj@)),
        ensures
            b.wf(),
            b.size() == size,
            b.alive() == seed_alive(size as int, seed_rows(obj@)),
            b.initial() == b.alive(),
            b.history_view().len() == 0,
    {
        let ghost v = seed_rows(obj@);
        let mut obj_b: Vec<Vec<char>> = Vec::new();
        let mut j: usize = 0;
        while j < obj.len()
            invariant
                v == seed_rows(obj@),
                j <= obj@.len(),
                v.len() == obj@.len(),
                obj_b@.len() == j,
                obj_b@.map_values(|r: Vec<char>| r@) == v.subrange(0, j as int),
            decreases obj@.len() - j,
        {
            let r = chars_of(obj[j]);
            let ghost prev = obj_b@;
            obj_b.push(r);
            assert(v[j as int] == obj@[j as int]@);
            assert(obj_b@ == prev.push(r));
            assert(forall|k: int| 0 <= k < j ==> obj_b@[k] == prev[k]);
            assert(forall|k: int| 0 <= k < j ==> prev.map_values(|r: Vec<char>| r@)[k] == v[k]);
            assert(obj_b@.map_values(|r: Vec<char>| r@) =~= v.subrange(0, j + 1));
            j = j + 1;
        }
        assert(obj_b@.map_values(|r: Vec<char>| r@) =~= v);
        let width = width_of(&obj_b);
        let ox: i128 = (size / 2) as i128 - (width / 2) as i128;
        let oy: i128 = (size / 2) as i128 - (obj_b.len() / 2) as i128;
        let ghost n = size as int;
        let ghost sa = seed_alive(n, v);
        assert(seed_origin(n, v) == (ox as int, oy as int));
        let mut rows: Vec<Vec<Cell>> = Vec::new();
        let mut actual: Vec<Cell> = Vec::new();
        let mut y: usize = 0;
        while y < size
            invariant
                size < 0x7fff_ffff,
                n == size,
                v == obj_b@.map_values(|r: Vec<char>| r@),
                seed_is_valid(v),
                sa == seed_alive(n, v),
                seed_origin(n, v) == (ox as int, oy as int),
                -0x1_0000_0000_0000_0000 <= ox <= 0x1_0000_0000_0000_0000,
                -0x1_0000_0000_0000_0000 <= oy <= 0x1_0000_0000_0000_0000,
                y <= size,
                rows@.len() == y,
                forall|yy: int| 0 <= yy < y ==> (#[trigger] rows@[yy])@.len() == n,
                forall|yy: int, xx: int|
                    0 <= yy < y && 0 <= xx < n ==> #[trigger] rows@[yy]@[xx] == (Cell {
                        x: xx as i32,
                        y: yy as i32,
                        status: status_in(sa, xx, yy),
                    }),
                forall|i: int|
                    0 <= i < actual@.len() ==> (#[trigger] actual@[i]).status == STATUS::ALIVE
                        && sa.contains((actual@[i].x as int, actual@[i].y as int))
                        && actual@[i].y < y,
                forall|a: int, b: int|
                    0 <= a < actual@.len() && 0 <= b < actual@.len() && a != b ==> (
                    #[trigger] actual@[a]).x != (#[trigger] actual@[b]).x || actual@[a].y
                        != actual@[b].y,
                forall|p: Pos| #[trigger] sa.contains(p) && p.1 < y ==> positions(actual@).contains(p),
            decreases size - y,
        {
            let mut row: Vec<Cell> = Vec::new();
            let mut x: usize = 0;
            while x < size
                invariant
                    size < 0x7fff_ffff,
                    n == size,
                    v == obj_b@.map_values(|r: Vec<char>| r@),
                    seed_is_valid(v),
                    sa == seed_alive(n, v),
                    seed_origin(n, v) == (ox as int, oy as int),
                    -0x1_0000_0000_0000_0000 <= ox <= 0x1_0000_0000_0000_0000,
                    -0x1_0000_0000_0000_0000 <= oy <= 0x1_0000_0000_0000_0000,
                    y < size,
                    x <= size,
                    row@.len() == x,
                    forall|xx: int|
                        0 <= xx < x ==> #[trigger] row@[xx] == (Cell {
                            x: xx as i32,
                            y: y as i32,
                            status: status_in(sa, xx, y as int),
                        }),
                    forall|i: int|
                        0 <= i < actual@.len() ==> (#[trigger] actual@[i]).status == STATUS::ALIVE
                            && sa.contains((actual@[i].x as int, actual@[i].y as int)) && (actual@[i].y
                            < y || (actual@[i].y == y && actual@[i].x < x)),
                    forall|a: int, b: int|
                        0 <= a < actual@.len() && 0 <= b < actual@.len() && a != b ==> (
                        #[trigger] actual@[a]).x != (#[trigger] actual@[b]).x || actual@[a].y
                            != actual@[b].y,
                    forall|p: Pos|
                        #[trigger] sa.contains(p) && (p.1 < y || (p.1 == y && p.0 < x))
                            ==> positions(actual@).contains(p),
                decreases size - x,
            {
                let c = Board::get_cell_from_char(&obj_b, ox, oy, x, y);
                assert(sa.contains((x as int, y as int)) == seed_alive_at(v, x - ox, y - oy));
                if c.is_alive() {
                    proof {
                        lemma_positions_push(actual@, c);
                    }
                    actual.push(c);
                }
                row.push(c);
                x = x + 1;
            }
            rows.push(row);
            y = y + 1;
        }
        let initial_state = copy_cells(&actual);
        let seen = clear_marks(size);
        let b = Board { rows, actual, history: VecDeque::new(), initial_state, seen };
        proof {
            assert(b.alive() =~= sa);
            assert forall|p: Pos| #[trigger] b.alive().contains(p) implies b.active().contains(p) by {
                assert(sa.contains(p));
            }
            assert(b.history_view() =~= Seq::<Set<Pos>>::empty());
            b.lemma_active_is_alive();
        }
        b
    }

    /// A board of `size × size` cells seeded with the lines of `text`
    /// centred on it (a line ends at a newline; a carriage return just
    /// before it is dropped); `None` when a line holds anything but the two
    /// glyphs.
    pub fn from_text(size: usize, text: &str) -> (r: Option<Board>)
        requires
            size < 0x7fff_ffff,
        ensures
            r is Some <==> seed_is_valid(split_lines(text@)),
            r is Some ==> {
                let b = r->0;
                &&& b.wf()
                &&& b.size() == size
                &&& b.alive() == seed_alive(size as int, split_lines(text@))
                &&& b.initial() == b.alive()
                &&& b.history_view().len() == 0
            },
    {
        let lines = lines_of(text);
        if !rows_are_valid(&lines) {
            return None;
        }
        Some(Board::new(size, lines))
    }

    /// The number of rows, which is also the side of the board.
    pub fn nb_row(&self) -> (r: usize)
        requires
            self.wf(),
        ensures
            r == self.size(),
            r < 0x7fff_ffff,
    {
        self.rows.len()
    }

    /// The cell at `(x, y)`, or `None` off the board.
    pub fn get_cell(&self, x: i32, y: i32) -> (r: Option<&Cell>)
        requires
            self.wf(),
        ensures
            r is None <==> !in_range(self.size() as int, x as int, y as int),
            r is Some ==> *r->0 == (Cell { x, y, status: status_in(self.alive(), x as int, y as int) }),
    {
        if x < 0 || y < 0 {
            return None;
        }
        let xu = x as usize;
        let yu = y as usize;
        if yu >= self.rows.len() || xu >= self.rows.len() {
            return None;
        }
        Some(&self.rows[yu][xu])
    }

    /// The cell at `(x, y)`; off the board, a dead cell at `(0, 0)`, so that
    /// the edge of the board behaves as permanently dead.
    pub fn get_cell_or_dead(&self, x: i32, y: i32) -> (r: Cell)
        requires
            self.wf(),
        ensures
            r == self.cell_or_dead(x as int, y as int),
            !in_range(self.size() as int, x as int, y as int) ==> r.status == STATUS::DEAD,
    {
        match self.get_cell(x, y) {
            None => Cell::new(0, 0, STATUS::DEAD),
            Some(cell) => *cell,
        }
    }

    /// The row of index `index`, from `x == 0` to `x == size - 1`.
    pub fn get_row(&self, index: usize) -> (r: &Vec<Cell>)
        requires
            self.wf(),
            index < self.size(),
        ensures
            r@.len() == self.size(),
            forall|x: int|
                0 <= x < self.size() ==> #[trigger] r@[x] == (Cell {
                    x: x as i32,
                    y: index as i32,
                    status: status_in(self.alive(), x, index as int),
                }),
    {
        &self.rows[index]
    }

    /// The glyphs of row `index`, from `x == 0` to `x == size - 1`.
    pub fn get_line(&self, index: usize) -> (r: String)
        requires
            self.wf(),
            index < self.size(),
        ensures
            r@ == snapshot_row(self.alive(), index as int, 0, self.size() - 1),
    {
        let row = self.get_row(index);
        let ghost target = snapshot_row(self.alive(), index as int, 0, self.size() - 1);
        let mut r = String::new();
        let mut x: usize = 0;
        while x < row.len()
            invariant
                row@.len() == self.size(),
                forall|xx: int|
                    0 <= xx < self.size() ==> #[trigger] row@[xx] == (Cell {
                        x: xx as i32,
                        y: index as i32,
                        status: status_in(self.alive(), xx, index as int),
                    }),
                target == snapshot_row(self.alive(), index as int, 0, self.size() - 1),
                x <= row@.len(),
                r@ == target.subrange(0, x as int),
            decreases row@.len() - x,
        {
            let c = row[x].status.get_char();
            proof {
                assert(target.subrange(0, x + 1) == target.subrange(0, x as int).push(c));
            }
            push_char(&mut r, c);
            x = x + 1;
        }
        assert(target.subrange(0, row@.len() as int) == target);
        r
    }

    /// The live cells, each once.
    pub fn active_cells(&self) -> (r: &Vec<Cell>)
        requires
            self.wf(),
        ensures
            positions(r@) == self.alive(),
            forall|i: int| 0 <= i < r@.len() ==> (#[trigger] r@[i]).status == STATUS::ALIVE,
            forall|i: int, j: int|
                0 <= i < r@.len() && 0 <= j < r@.len() && i != j ==> (#[trigger] r@[i]).x != (
                #[trigger] r@[j]).x || r@[i].y != r@[j].y,
    {
        proof {
            self.lemma_active_is_alive();
        }
        &self.actual
    }

    /// The index in the list of live cells of the live cell at `(x, y)`.
    fn index_of_active(&self, x: i32, y: i32) -> (r: usize)
        requires
            self.wf(),
            self.alive().contains((x as int, y as int)),
        ensures
            r < self.actual@.len(),
            self.actual@[r as int].x == x,
            self.actual@[r as int].y == y,
    {
        assert(self.active().contains((x as int, y as int)));
        let mut i: usize = self.actual.len();
        while i > 0
            invariant
                self.wf(),
                self.alive().contains((x as int, y as int)),
                i <= self.actual@.len(),
                forall|j: int| i <= j < self.actual@.len() ==> !(#[trigger] self.actual@[j].x == x && self.actual@[j].y == y),
            decreases i,
        {
            i = i - 1;
            if self.actual[i].x == x && self.actual[i].y == y {
                return i;
            }
        }
        assert(false);
        0
    }

    /// Sets the status at `(x, y)`, keeping the list of live cells in step;
    /// `None` off the board, where nothing changes.
    pub fn set_cell(&mut self, x: i32, y: i32, status: STATUS) -> (r: Option<&Cell>)
        requires
            old(self).wf(),
        ensures
            final(self).wf(),
            final(self).size() == old(self).size(),
            final(self).history_view() == old(self).history_view(),
            final(self).initial() == old(self).initial(),
            r is None <==> !in_range(old(self).size() as int, x as int, y as int),
            r is Some ==> *r->0 == (Cell { x, y, status }),
            final(self).alive() == if !in_range(old(self).size() as int, x as int, y as int) {
                old(self).alive()
            } else if status == STATUS::ALIVE {
                old(self).alive().insert((x as int, y as int))
            } else {
                old(self).alive().remove((x as int, y as int))
            },
    {
        if x < 0 || y < 0 {
            return None;
        }
        let xu = x as usize;
        let yu = y as usize;
        if yu >= self.rows.len() || xu >= self.rows.len() {
            return None;
        }
        let ghost pre = *self;
        let was = self.rows[yu][xu].status;
        let mut i: usize = 0;
        if status == STATUS::DEAD && was == STATUS::ALIVE {
            i = self.index_of_active(x, y);
        }
        self.rows[yu][xu].status = status;
        assert(forall|yy: int| 0 <= yy < pre.rows@.len() && yy != y ==> self.rows@[yy] == pre.rows@[yy]);
        assert(forall|xx: int| 0 <= xx < pre.rows@.len() && xx != x ==> self.rows@[y as int]@[xx] == pre.rows@[y as int]@[xx]);
        if status == STATUS::ALIVE && was == STATUS::DEAD {
            self.actual.push(Cell::new(x, y, STATUS::ALIVE));
            proof {
                assert(self.actual@ == pre.actual@.push(Cell { x, y, status: STATUS::ALIVE }));
                assert(self.alive() =~= pre.alive().insert((x as int, y as int)));
                assert forall|p: Pos| #[trigger] self.alive().contains(p) implies self.active().contains(p) by {
                    if p != (x as int, y as int) {
                        assert(pre.alive().contains(p));
                        assert(pre.active().contains(p));
                        let i = choose|i: int| 0 <= i < pre.actual@.len() && #[trigger] pre.actual@[i].x == p.0 && pre.actual@[i].y == p.1;
                        assert(self.actual@[i] == pre.actual@[i]);
                    } else {
                        assert(self.actual@[pre.actual@.len() as int].x == p.0);
                    }
                }
            }
        } else if status == STATUS::DEAD && was == STATUS::ALIVE {
            self.actual.remove(i);
            proof {
                assert(self.actual@ == pre.actual@.remove(i as int));
                assert(self.alive() =~= pre.alive().remove((x as int, y as int)));
                assert forall|p: Pos| #[trigger] self.alive().contains(p) implies self.active().contains(p) by {
                    assert(pre.alive().contains(p));
                    assert(pre.active().contains(p));
                    let j = choose|j: int| 0 <= j < pre.actual@.len() && #[trigger] pre.actual@[j].x == p.0 && pre.actual@[j].y == p.1;
                    assert(j != i);
                    if j < i {
                        assert(self.actual@[j] == pre.actual@[j]);
                    } else {
                        assert(self.actual@[j - 1] == pre.actual@[j]);
                    }
                }
            }
        } else {
            proof {
                assert(self.alive() =~= pre.alive());
                if status == STATUS::ALIVE {
                    assert(pre.alive().contains((x as int, y as int)));
                    assert(self.alive() =~= pre.alive().insert((x as int, y as int)));
                } else {
                    assert(self.alive() =~= pre.alive().remove((x as int, y as int)));
                }
            }
        }
        proof {
            assert(self.history_view() == pre.history_view());
        }
        Some(&self.rows[yu][xu])
    }

    /// Toggles the cell at `(x, y)` between dead and alive, through
    /// `set_cell`; `None` off the board, where nothing changes.
    pub fn inverse_cell(&mut self, x: i32, y: i32) -> (r: Option<&Cell>)
        requires
            old(self).wf(),
        ensures
            final(self).wf(),
            final(self).size() == old(self).size(),
            final(self).history_view() == old(self).history_view(),
            final(self).initial() == old(self).initial(),
            r is None <==> !in_range(old(self).size() as int, x as int, y as int),
            r is Some ==> *r->0 == (Cell {
                x,
                y,
                status: inverse_of(status_in(old(self).alive(), x as int, y as int)),
            }),
            final(self).alive() == if !in_range(old(self).size() as int, x as int, y as int) {
                old(self).alive()
            } else if old(self).alive().contains((x as int, y as int)) {
                old(self).alive().remove((x as int, y as int))
            } else {
                old(self).alive().insert((x as int, y as int))
            },
    {
        let status = match self.get_cell(x, y) {
            None => {
                return None;
            },
            Some(c) => c.status.inverse(),
        };
        self.set_cell(x, y, status)
    }

    /// The eight cells around `pos`, row by row; a neighbour off the board
    /// is a dead cell at `(0, 0)`, never a cell from the other side.
    pub fn get_adj_cells(&self, pos: &Cell) -> (r: Vec<Cell>)
        requires
            self.wf(),
            i32::MIN < pos.x < i32::MAX,
            i32::MIN < pos.y < i32::MAX,
        ensures
            r@.len() == 8,
            forall|k: int|
                0 <= k < 8 ==> #[trigger] r@[k] == self.cell_or_dead(
                    neighbor((pos.x as int, pos.y as int), k).0,
                    neighbor((pos.x as int, pos.y as int), k).1,
                ),
    {
        let mut r: Vec<Cell> = Vec::new();
        let mut k: usize = 0;
        while k < 8
            invariant
                self.wf(),
                i32::MIN < pos.x < i32::MAX,
                i32::MIN < pos.y < i32::MAX,
                k <= 8,
                r@.len() == k,
                forall|j: int|
                    0 <= j < k ==> #[trigger] r@[j] == self.cell_or_dead(
                        neighbor((pos.x as int, pos.y as int), j).0,
                        neighbor((pos.x as int, pos.y as int), j).1,
                    ),
            decreases 8 - k,
        {
            let (dx, dy) = offset_of(k);
            r.push(self.get_cell_or_dead(pos.x + dx, pos.y + dy));
            k = k + 1;
        }
        r
    }

    /// How many of the eight cells around `cell` are alive; positions off
    /// the board count as dead.
    pub fn neighbor_count(&self, cell: &Cell) -> (r: usize)
        requires
            self.wf(),
            i32::MIN < cell.x < i32::MAX,
            i32::MIN < cell.y < i32::MAX,
        ensures
            r == live_neighbors(self.alive(), cell.x as int, cell.y as int),
    {
        let ghost q = (cell.x as int, cell.y as int);
        let adj = self.get_adj_cells(cell);
        let mut n: usize = 0;
        let mut k: usize = 0;
        while k < 8
            invariant
                self.wf(),
                q == (cell.x as int, cell.y as int),
                adj@.len() == 8,
                forall|j: int|
                    0 <= j < 8 ==> #[trigger] adj@[j] == self.cell_or_dead(
                        neighbor(q, j).0,
                        neighbor(q, j).1,
                    ),
                k <= 8,
                n == live_among(self.alive(), q, k as nat),
                n <= k,
            decreases 8 - k,
        {
            proof {
                if self.alive().contains(neighbor(q, k as int)) {
                    self.lemma_alive_in_range(neighbor(q, k as int));
                }
            }
            if adj[k].is_alive() {
                n = n + 1;
            }
            k = k + 1;
        }
        proof {
            reveal_with_fuel(live_among, 9);
        }
        n
    }

    /// The cell at `cell`'s position in the next generation.
    fn apply_on_pos(&self, cell: &Cell) -> (r: Cell)
        requires
            self.wf(),
            in_range(self.size() as int, cell.x as int, cell.y as int),
        ensures
            r.x == cell.x,
            r.y == cell.y,
            r.status == rule(cell.status, live_neighbors(self.alive(), cell.x as int, cell.y as int)),
    {
        let n = self.neighbor_count(cell);
        cell.apply_rules(n)
    }

    /// The zone of interest: the cells of the board next to a live cell,
    /// each position once.
    fn get_actual_interest_cell(&mut self) -> (r: Vec<Cell>)
        requires
            old(self).wf(),
        ensures
            final(self).wf(),
            final(self).rows == old(self).rows,
            final(self).actual == old(self).actual,
            final(self).history == old(self).history,
            final(self).initial_state == old(self).initial_state,
            positions(r@) == interest_zone(old(self).alive(), old(self).size() as int),
            forall|m: int|
                0 <= m < r@.len() ==> in_range(
                    old(self).size() as int,
                    (#[trigger] r@[m]).x as int,
                    r@[m].y as int,
                ) && r@[m] == old(self).cell_or_dead(r@[m].x as int, r@[m].y as int),
            forall|a: int, b: int|
                0 <= a < r@.len() && 0 <= b < r@.len() && a != b ==> (#[trigger] r@[a]).x != (
                #[trigger] r@[b]).x || r@[a].y != r@[b].y,
    {
        let ghost pre = *self;
        let ghost n = pre.size() as int;
        let ghost zone = interest_zone(pre.alive(), n);
        let sz = self.rows.len();
        let mut res: Vec<Cell> = Vec::new();
        let mut i: usize = 0;
        while i < self.actual.len()
            invariant
                pre.wf(),
                self.rows == pre.rows,
                self.actual == pre.actual,
                self.history == pre.history,
                self.initial_state == pre.initial_state,
                n == pre.size(),
                sz == n,
                zone == interest_zone(pre.alive(), n),
                self.seen@.len() == n,
                forall|y: int| 0 <= y < n ==> (#[trigger] self.seen@[y])@.len() == n,
                forall|y: int, x: int|
                    in_range(n, x, y) ==> ((#[trigger] self.seen@[y]@[x]) <==> positions(
                        res@,
                    ).contains((x, y))),
                i <= self.actual@.len(),
                forall|m: int|
                    0 <= m < res@.len() ==> in_range(n, (#[trigger] res@[m]).x as int, res@[m].y as int)
                        && res@[m] == pre.cell_or_dead(res@[m].x as int, res@[m].y as int)
                        && zone.contains((res@[m].x as int, res@[m].y as int)),
                forall|a: int, b: int|
                    0 <= a < res@.len() && 0 <= b < res@.len() && a != b ==> (
                    #[trigger] res@[a]).x != (#[trigger] res@[b]).x || res@[a].y != res@[b].y,
                forall|j: int, k: int|
                    0 <= j < i && 0 <= k < 8 && in_range(
                        n,
                        neighbor((self.actual@[j].x as int, self.actual@[j].y as int), k).0,
                        neighbor((self.actual@[j].x as int, self.actual@[j].y as int), k).1,
                    ) ==> positions(res@).contains(
                        #[trigger] neighbor((self.actual@[j].x as int, self.actual@[j].y as int), k),
                    ),
            decreases self.actual@.len() - i,
        {
            let a = self.actual[i];
            let ghost q = (a.x as int, a.y as int);
            proof {
                assert(pre.active().contains(q));
                pre.lemma_active_is_alive();
            }
            let mut k: usize = 0;
            while k < 8
                invariant
                    pre.wf(),
                    self.rows == pre.rows,
                    self.actual == pre.actual,
                    self.history == pre.history,
                    self.initial_state == pre.initial_state,
                    n == pre.size(),
                    sz == n,
                    zone == interest_zone(pre.alive(), n),
                    self.seen@.len() == n,
                    forall|y: int| 0 <= y < n ==> (#[trigger] self.seen@[y])@.len() == n,
                    forall|y: int, x: int|
                        in_range(n, x, y) ==> ((#[trigger] self.seen@[y]@[x]) <==> positions(
                            res@,
                        ).contains((x, y))),
                    i < self.actual@.len(),
                    a == self.actual@[i as int],
                    q == (a.x as int, a.y as int),
                    pre.alive().contains(q),
                    in_range(n, q.0, q.1),
                    k <= 8,
                    forall|m: int|
                        0 <= m < res@.len() ==> in_range(n, (#[trigger] res@[m]).x as int, res@[m].y as int)
                            && res@[m] == pre.cell_or_dead(res@[m].x as int, res@[m].y as int)
                            && zone.contains((res@[m].x as int, res@[m].y as int)),
                    forall|a: int, b: int|
                        0 <= a < res@.len() && 0 <= b < res@.len() && a != b ==> (
                        #[trigger] res@[a]).x != (#[trigger] res@[b]).x || res@[a].y != res@[b].y,
                    forall|j: int, kk: int|
                        0 <= j < i && 0 <= kk < 8 && in_range(
                            n,
                            neighbor((self.actual@[j].x as int, self.actual@[j].y as int), kk).0,
                            neighbor((self.actual@[j].x as int, self.actual@[j].y as int), kk).1,
                        ) ==> positions(res@).contains(
                            #[trigger] neighbor((self.actual@[j].x as int, self.actual@[j].y as int), kk),
                        ),
                    forall|kk: int|
                        0 <= kk < k && in_range(n, neighbor(q, kk).0, neighbor(q, kk).1) ==> positions(
                            res@,
                        ).contains(#[trigger] neighbor(q, kk)),
                decreases 8 - k,
            {
                let (dx, dy) = offset_of(k);
                let nx = a.x + dx;
                let ny = a.y + dy;
                if nx >= 0 && ny >= 0 && (nx as usize) < sz && (ny as usize) < sz {
                    let xu = nx as usize;
                    let yu = ny as usize;
                    if !self.seen[yu][xu] {
                        let c = self.rows[yu][xu];
                        let ghost marks = self.seen@;
                        proof {
                            lemma_positions_push(res@, c);
                            lemma_neighbor_offsets(neighbor(q, k as int), q);
                            assert(zone.contains(neighbor(q, k as int)));
                            assert(!positions(res@).contains((nx as int, ny as int)));
                        }
                        self.seen[yu][xu] = true;
                        proof {
                            assert forall|y: int| 0 <= y < n && y != yu implies #[trigger] self.seen@[y] == marks[y] by {}
                            assert forall|x: int| 0 <= x < n && x != xu implies #[trigger] self.seen@[yu as int]@[x] == marks[yu as int]@[x] by {}
                        }
                        res.push(c);
                    }
                }
                k = k + 1;
            }
            i = i + 1;
        }
        proof {
            assert forall|p: Pos| zone.contains(p) implies #[trigger] positions(res@).contains(p) by {
                let q = choose|q: Pos| pre.alive().contains(q) && is_neighbor(p, q);
                pre.lemma_active_is_alive();
                assert(pre.active().contains(q));
                let j = choose|j: int|
                    0 <= j < pre.actual@.len() && #[trigger] pre.actual@[j].x == q.0
                        && pre.actual@[j].y == q.1;
                lemma_neighbor_offsets(p, q);
                let k = choose|k: int| 0 <= k < 8 && p == #[trigger] neighbor(q, k);
                assert(p == neighbor((self.actual@[j].x as int, self.actual@[j].y as int), k));
            }
            assert forall|p: Pos| #[trigger] positions(res@).contains(p) implies zone.contains(p) by {
                let m = choose|m: int| 0 <= m < res@.len() && #[trigger] res@[m].x == p.0 && res@[m].y == p.1;
                assert(zone.contains((res@[m].x as int, res@[m].y as int)));
            }
            assert(positions(res@) =~= zone);
        }
        let mut m: usize = 0;
        while m < res.len()
            invariant
                self.rows == pre.rows,
                self.actual == pre.actual,
                self.history == pre.history,
                self.initial_state == pre.initial_state,
                n == pre.size(),
                self.seen@.len() == n,
                forall|y: int| 0 <= y < n ==> (#[trigger] self.seen@[y])@.len() == n,
                forall|mm: int|
                    0 <= mm < res@.len() ==> in_range(n, (#[trigger] res@[mm]).x as int, res@[mm].y as int),
                m <= res@.len(),
                forall|y: int, x: int|
                    in_range(n, x, y) && (#[trigger] self.seen@[y]@[x]) ==> exists|j: int|
                        m <= j < res@.len() && #[trigger] res@[j].x == x && res@[j].y == y,
            decreases res@.len() - m,
        {
            let c = res[m];
            let ghost marks = self.seen@;
            let yu = c.y as usize;
            let xu = c.x as usize;
            self.seen[yu][xu] = false;
            proof {
                assert forall|y: int| 0 <= y < n && y != yu implies #[trigger] self.seen@[y] == marks[y] by {}
                assert forall|x: int| 0 <= x < n && x != xu implies #[trigger] self.seen@[yu as int]@[x] == marks[yu as int]@[x] by {}
                assert forall|y: int, x: int|
                    in_range(n, x, y) && (#[trigger] self.seen@[y]@[x]) implies exists|j: int|
                        m + 1 <= j < res@.len() && #[trigger] res@[j].x == x && res@[j].y == y by {
                    assert(marks[y]@[x]);
                    let j = choose|j: int| m <= j < res@.len() && #[trigger] res@[j].x == x && res@[j].y == y;
                    assert(j != m);
                }
            }
            m = m + 1;
        }
        proof {
            assert forall|y: int, x: int| in_range(n, x, y) implies !(#[trigger] self.seen@[y]@[x]) by {
                if self.seen@[y]@[x] {
                    let j = choose|j: int| m <= j < res@.len() && #[trigger] res@[j].x == x && res@[j].y == y;
                }
            }
            assert(self.alive() == pre.alive());
            assert(self.active() == pre.active());
        }
        res
    }

    /// A copy of the list of live cells.
    fn copy_active(&self) -> (r: Vec<Cell>)
        requires
            self.wf(),
        ensures
            r@ == self.actual@,
    {
        copy_cells(&self.actual)
    }

    /// Sets every live cell dead, one by one through `set_cell`.
    fn clear_all(&mut self)
        requires
            old(self).wf(),
        ensures
            final(self).wf(),
            final(self).size() == old(self).size(),
            final(self).history_view() == old(self).history_view(),
            final(self).initial() == old(self).initial(),
            final(self).alive() == Set::<Pos>::empty(),
    {
        let cur = self.copy_active();
        proof {
            self.lemma_active_is_alive();
            assert(cur@.subrange(0, cur@.len() as int) == cur@);
        }
        let mut i: usize = cur.len();
        while i > 0
            invariant
                self.wf(),
                self.size() == old(self).size(),
                self.history_view() == old(self).history_view(),
                self.initial() == old(self).initial(),
                i <= cur@.len(),
                forall|a: int, b: int|
                    0 <= a < cur@.len() && 0 <= b < cur@.len() && a != b ==> (#[trigger] cur@[a]).x
                        != (#[trigger] cur@[b]).x || cur@[a].y != cur@[b].y,
                self.alive() == positions(cur@.subrange(0, i as int)),
            decreases i,
        {
            i = i - 1;
            let c = cur[i];
            proof {
                let pre = cur@.subrange(0, i as int);
                assert(cur@.subrange(0, i + 1) == pre.push(c));
                lemma_positions_push(pre, c);
                assert(!positions(pre).contains((c.x as int, c.y as int))) by {
                    if positions(pre).contains((c.x as int, c.y as int)) {
                        let j = choose|j: int|
                            0 <= j < pre.len() && #[trigger] pre[j].x == c.x && pre[j].y == c.y;
                        assert(cur@[j].x == cur@[i as int].x);
                    }
                }
                assert(positions(pre.push(c)).remove((c.x as int, c.y as int)) =~= positions(pre));
            }
            self.set_cell(c.x, c.y, STATUS::DEAD);
        }
        proof {
            assert(positions(cur@.subrange(0, 0)) =~= Set::<Pos>::empty());
        }
    }

    /// Sets each cell of `cells` alive, through `set_cell`, on a board with
    /// no live cell.
    fn set_all_alive(&mut self, cells: &Vec<Cell>)
        requires
            old(self).wf(),
            old(self).alive() == Set::<Pos>::empty(),
            forall|m: int|
                0 <= m < cells@.len() ==> in_range(
                    old(self).size() as int,
                    (#[trigger] cells@[m]).x as int,
                    cells@[m].y as int,
                ),
        ensures
            final(self).wf(),
            final(self).size() == old(self).size(),
            final(self).history_view() == old(self).history_view(),
            final(self).initial() == old(self).initial(),
            final(self).alive() == positions(cells@),
    {
        proof {
            assert(positions(cells@.subrange(0, 0)) =~= Set::<Pos>::empty());
        }
        let mut i: usize = 0;
        while i < cells.len()
            invariant
                self.wf(),
                self.size() == old(self).size(),
                self.history_view() == old(self).history_view(),
                self.initial() == old(self).initial(),
                i <= cells@.len(),
                forall|m: int|
                    0 <= m < cells@.len() ==> in_range(
                        self.size() as int,
                        (#[trigger] cells@[m]).x as int,
                        cells@[m].y as int,
                    ),
                self.alive() == positions(cells@.subrange(0, i as int)),
            decreases cells@.len() - i,
        {
            let c = cells[i];
            proof {
                assert(cells@.subrange(0, i + 1) == cells@.subrange(0, i as int).push(c));
                lemma_positions_push(cells@.subrange(0, i as int), c);
            }
            self.set_cell(c.x, c.y, STATUS::ALIVE);
            i = i + 1;
        }
        assert(cells@.subrange(0, cells@.len() as int) == cells@);
    }

    /// Advances the board by one generation: the live set becomes the next
    /// generation under the rule, computed over the zone of interest only,
    /// and the former live set is recorded in front of the history.
    pub fn next(&mut self)
        requires
            old(self).wf(),
        ensures
            final(self).wf(),
            final(self).size() == old(self).size(),
            final(self).alive() == next_generation(old(self).alive(), old(self).size() as int),
            final(self).history_view() == push_history(old(self).history_view(), old(self).alive()),
            final(self).initial() == old(self).initial(),
    {
        let ghost n = self.size() as int;
        let ghost nxt = next_generation(self.alive(), n);
        let interest = self.get_actual_interest_cell();
        let ghost pre = *self;
        proof {
            assert(pre.alive() == old(self).alive());
            assert(pre.active() == old(self).active());
            assert(pre.history_view() == old(self).history_view());
            assert(pre.initial() == old(self).initial());
        }
        let mut res: Vec<Cell> = Vec::new();
        let mut i: usize = 0;
        while i < interest.len()
            invariant
                self.wf(),
                *self == pre,
                pre.alive() == old(self).alive(),
                pre.active() == old(self).active(),
                pre.history_view() == old(self).history_view(),
                pre.initial() == old(self).initial(),
                n == self.size(),
                nxt == next_generation(self.alive(), n),
                positions(interest@) == interest_zone(self.alive(), n),
                forall|m: int|
                    0 <= m < interest@.len() ==> in_range(
                        n,
                        (#[trigger] interest@[m]).x as int,
                        interest@[m].y as int,
                    ) && interest@[m] == self.cell_or_dead(
                        interest@[m].x as int,
                        interest@[m].y as int,
                    ),
                i <= interest@.len(),
                forall|m: int|
                    0 <= m < res@.len() ==> in_range(n, (#[trigger] res@[m]).x as int, res@[m].y as int)
                        && nxt.contains((res@[m].x as int, res@[m].y as int)),
                forall|j: int|
                    0 <= j < i && nxt.contains(
                        ((#[trigger] interest@[j]).x as int, interest@[j].y as int),
                    ) ==> positions(res@).contains((interest@[j].x as int, interest@[j].y as int)),
            decreases interest@.len() - i,
        {
            let c = self.apply_on_pos(&interest[i]);
            if c.is_alive() {
                proof {
                    lemma_positions_push(res@, c);
                }
                res.push(c);
            }
            i = i + 1;
        }
        proof {
            lemma_next_within_interest(self.alive(), n);
            assert forall|p: Pos| nxt.contains(p) implies #[trigger] positions(res@).contains(p) by {
                assert(positions(interest@).contains(p));
                let j = choose|j: int|
                    0 <= j < interest@.len() && #[trigger] interest@[j].x == p.0 && interest@[j].y
                        == p.1;
            }
            assert forall|p: Pos| #[trigger] positions(res@).contains(p) implies nxt.contains(p) by {
                let m = choose|m: int|
                    0 <= m < res@.len() && #[trigger] res@[m].x == p.0 && res@[m].y == p.1;
                assert(nxt.contains((res@[m].x as int, res@[m].y as int)));
            }
            assert(positions(res@) =~= nxt);
        }
        let snapshot = self.copy_active();
        let ghost h0 = self.history@;
        self.history.push_front(snapshot);
        if self.history.len() > HISTORY_CAPACITY {
            self.history.pop_back();
        }
        proof {
            self.lemma_active_is_alive();
            let h2 = seq![snapshot] + h0;
            assert(h2.map_values(|v: Vec<Cell>| positions(v@)) =~= seq![old(self).alive()]
                + old(self).history_view());
            if h2.len() > HISTORY_CAPACITY {
                assert(self.history@ == h2.subrange(0, HISTORY_CAPACITY as int));
                assert(self.history_view() =~= (seq![old(self).alive()] + old(
                    self,
                ).history_view()).subrange(0, HISTORY_CAPACITY as int));
            } else {
                assert(self.history_view() =~= seq![old(self).alive()] + old(self).history_view());
            }
            assert(self.alive() == old(self).alive());
            assert forall|k: int, i: int|
                0 <= k < self.history@.len() && 0 <= i < self.history@[k]@.len() implies in_range(
                n,
                (#[trigger] self.history@[k]@[i]).x as int,
                self.history@[k]@[i].y as int,
            ) by {
                if k > 0 {
                    assert(self.history@[k] == h0[k - 1]);
                }
            }
        }
        self.clear_all();
        self.set_all_alive(&res);
    }

    /// Rewinds the board to the newest recorded generation, which leaves the
    /// history; with an empty history nothing changes.
    pub fn prev(&mut self)
        requires
            old(self).wf(),
        ensures
            final(self).wf(),
            final(self).size() == old(self).size(),
            final(self).initial() == old(self).initial(),
            old(self).history_view().len() == 0 ==> final(self).alive() == old(self).alive()
                && final(self).history_view() == old(self).history_view(),
            old(self).history_view().len() > 0 ==> final(self).alive() == old(
                self,
            ).history_view()[0] && final(self).history_view() == old(
                self,
            ).history_view().drop_first(),
    {
        if self.history.len() > 0 {
            self.clear_all();
            let ghost h0 = self.history@;
            match self.history.pop_front() {
                Some(snapshot) => {
                    proof {
                        assert(self.history_view() =~= old(self).history_view().drop_first());
                        assert forall|k: int, i: int|
                            0 <= k < self.history@.len() && 0 <= i < self.history@[k]@.len()
                            implies in_range(
                            self.size() as int,
                            (#[trigger] self.history@[k]@[i]).x as int,
                            self.history@[k]@[i].y as int,
                        ) by {
                            assert(self.history@[k] == h0[k + 1]);
                        }
                        assert(snapshot == h0[0]);
                        assert(forall|m: int| 0 <= m < snapshot@.len() ==> #[trigger] snapshot@[m] == h0[0]@[m]);
                    }
                    self.set_all_alive(&snapshot);
                },
                None => {},
            }
        }
    }

    /// The snapshot text of the live cells of a list; dead cells are
    /// skipped and neither widen the box nor show as alive.
    fn active_cell_to_string(cells: &Vec<Cell>) -> (r: String)
        requires
            forall|m: int|
                0 <= m < cells@.len() && (#[trigger] cells@[m]).status == STATUS::ALIVE ==> 0
                    <= cells@[m].x < 0x7fff_ffff && 0 <= cells@[m].y < 0x7fff_ffff,
        ensures
            r@ == snapshot_text(live_positions(cells@)),
    {
        let ghost s = live_positions(cells@);
        let mut r = String::new();
        let mut found = false;
        let mut x0: i32 = 0;
        let mut y0: i32 = 0;
        let mut x1: i32 = 0;
        let mut y1: i32 = 0;
        let ghost mut w0: int = 0;
        let ghost mut w1: int = 0;
        let ghost mut w2: int = 0;
        let ghost mut w3: int = 0;
        let mut i: usize = 0;
        while i < cells.len()
            invariant
                forall|m: int|
                    0 <= m < cells@.len() && (#[trigger] cells@[m]).status == STATUS::ALIVE ==> 0
                        <= cells@[m].x < 0x7fff_ffff && 0 <= cells@[m].y < 0x7fff_ffff,
                i <= cells@.len(),
                found <==> exists|m: int| 0 <= m < i && (#[trigger] cells@[m]).status == STATUS::ALIVE,
                forall|m: int|
                    0 <= m < i && (#[trigger] cells@[m]).status == STATUS::ALIVE ==> x0 <= cells@[m].x
                        <= x1 && y0 <= cells@[m].y <= y1,
                found ==> 0 <= w0 < i && cells@[w0].x == x0 && cells@[w0].status == STATUS::ALIVE,
                found ==> 0 <= w1 < i && cells@[w1].y == y0 && cells@[w1].status == STATUS::ALIVE,
                found ==> 0 <= w2 < i && cells@[w2].x == x1 && cells@[w2].status == STATUS::ALIVE,
                found ==> 0 <= w3 < i && cells@[w3].y == y1 && cells@[w3].status == STATUS::ALIVE,
            decreases cells@.len() - i,
        {
            let c = cells[i];
            if c.is_alive() {
                if !found || c.x < x0 {
                    x0 = c.x;
                    proof { w0 = i as int; }
                }
                if !found || c.y < y0 {
                    y0 = c.y;
                    proof { w1 = i as int; }
                }
                if !found || c.x > x1 {
                    x1 = c.x;
                    proof { w2 = i as int; }
                }
                if !found || c.y > y1 {
                    y1 = c.y;
                    proof { w3 = i as int; }
                }
                found = true;
            }
            i = i + 1;
        }
        if !found {
            proof {
                assert forall|p: Pos| !s.contains(p) by {
                    if s.contains(p) {
                        let m = choose|m: int|
                            0 <= m < cells@.len() && cells@[m].status == STATUS::ALIVE && #[trigger] cells@[m].x
                                == p.0 && cells@[m].y == p.1;
                        assert(cells@[m].status == STATUS::ALIVE);
                    }
                }
                assert(snapshot_rows(s) =~= Seq::<Seq<char>>::empty());
                assert(snapshot_rows(s).map_values(|r: Seq<char>| with_newline(r)) =~= Seq::<Seq<char>>::empty());
            }
            return r;
        }
        proof {
            let b = (x0 as int, y0 as int, x1 as int, y1 as int);
            assert forall|p: Pos| #[trigger] s.contains(p) implies b.0 <= p.0 <= b.2 && b.1 <= p.1 <= b.3 by {
                let m = choose|m: int|
                    0 <= m < cells@.len() && cells@[m].status == STATUS::ALIVE && #[trigger] cells@[m].x
                        == p.0 && cells@[m].y == p.1;
                assert(x0 <= cells@[m].x <= x1);
            }
            let q0 = (cells@[w0].x as int, cells@[w0].y as int);
            let q1 = (cells@[w1].x as int, cells@[w1].y as int);
            let q2 = (cells@[w2].x as int, cells@[w2].y as int);
            let q3 = (cells@[w3].x as int, cells@[w3].y as int);
            assert(s.contains(q0) && s.contains(q1) && s.contains(q2) && s.contains(q3));
            assert(is_bounding_box(s, b));
            lemma_bounding_box_unique(s, b);
        }
        let w: usize = (x1 - x0) as usize + 1;
        let h: usize = (y1 - y0) as usize + 1;
        let mut grid: Vec<Vec<bool>> = Vec::new();
        let mut j: usize = 0;
        while j < h
            invariant
                j <= h,
                grid@.len() == j,
                forall|jj: int, ii: int| 0 <= jj < j && 0 <= ii < w ==> !(#[trigger] grid@[jj]@[ii]),
                forall|jj: int| 0 <= jj < j ==> (#[trigger] grid@[jj])@.len() == w,
            decreases h - j,
        {
            let mut row: Vec<bool> = Vec::new();
            let mut k: usize = 0;
            while k < w
                invariant
                    k <= w,
                    row@.len() == k,
                    forall|ii: int| 0 <= ii < k ==> !(#[trigger] row@[ii]),
                decreases w - k,
            {
                row.push(false);
                k = k + 1;
            }
            grid.push(row);
            j = j + 1;
        }
        let mut m: usize = 0;
        while m < cells.len()
            invariant
                forall|mm: int|
                    0 <= mm < cells@.len() && (#[trigger] cells@[mm]).status == STATUS::ALIVE ==> 0
                        <= cells@[mm].x < 0x7fff_ffff && 0 <= cells@[mm].y < 0x7fff_ffff,
                0 <= x0 <= x1 < 0x7fff_ffff,
                0 <= y0 <= y1 < 0x7fff_ffff,
                forall|mm: int|
                    0 <= mm < cells@.len() && (#[trigger] cells@[mm]).status == STATUS::ALIVE ==> x0
                        <= cells@[mm].x <= x1 && y0 <= cells@[mm].y <= y1,
                w == x1 - x0 + 1,
                h == y1 - y0 + 1,
                m <= cells@.len(),
                grid@.len() == h,
                forall|jj: int| 0 <= jj < h ==> (#[trigger] grid@[jj])@.len() == w,
                forall|jj: int, ii: int|
                    0 <= jj < h && 0 <= ii < w ==> (#[trigger] grid@[jj]@[ii] <==> live_positions(
                        cells@.subrange(0, m as int),
                    ).contains((x0 + ii, y0 + jj))),
            decreases cells@.len() - m,
        {
            let c = cells[m];
            proof {
                assert(cells@.subrange(0, m + 1) == cells@.subrange(0, m as int).push(c));
                lemma_live_positions_push(cells@.subrange(0, m as int), c);
            }
            if c.is_alive() {
                let ghost pre = grid@;
                let yy = (c.y - y0) as usize;
                let xx = (c.x - x0) as usize;
                grid[yy][xx] = true;
                proof {
                    assert forall|jj: int| 0 <= jj < h && jj != yy implies #[trigger] grid@[jj] == pre[jj] by {}
                    assert forall|ii: int| 0 <= ii < w && ii != xx implies #[trigger] grid@[yy as int]@[ii] == pre[yy as int]@[ii] by {}
                }
            }
            m = m + 1;
        }
        assert(cells@.subrange(0, cells@.len() as int) == cells@);
        let ghost lines = snapshot_rows(s).map_values(|r: Seq<char>| with_newline(r));
        proof {
            assert(lines.subrange(0, 0) =~= Seq::<Seq<char>>::empty());
        }
        let mut j: usize = 0;
        while j < h
            invariant
                w == x1 - x0 + 1,
                h == y1 - y0 + 1,
                bounding_box(s) == (x0 as int, y0 as int, x1 as int, y1 as int),
                exists|p: Pos| s.contains(p),
                lines == snapshot_rows(s).map_values(|r: Seq<char>| with_newline(r)),
                lines.len() == h,
                grid@.len() == h,
                forall|jj: int| 0 <= jj < h ==> (#[trigger] grid@[jj])@.len() == w,
                forall|jj: int, ii: int|
                    0 <= jj < h && 0 <= ii < w ==> (#[trigger] grid@[jj]@[ii] <==> s.contains(
                        (x0 + ii, y0 + jj),
                    )),
                j <= h,
                r@ == lines.subrange(0, j as int).flatten(),
            decreases h - j,
        {
            let ghost base = r@;
            let ghost row = snapshot_row(s, y0 + j, x0 as int, x1 as int);
            let mut k: usize = 0;
            while k < w
                invariant
                    w == x1 - x0 + 1,
                    h == y1 - y0 + 1,
                    j < h,
                    grid@.len() == h,
                    forall|jj: int| 0 <= jj < h ==> (#[trigger] grid@[jj])@.len() == w,
                    forall|jj: int, ii: int|
                        0 <= jj < h && 0 <= ii < w ==> (#[trigger] grid@[jj]@[ii] <==> s.contains(
                            (x0 + ii, y0 + jj),
                        )),
                    row == snapshot_row(s, y0 + j, x0 as int, x1 as int),
                    k <= w,
                    r@ == base + row.subrange(0, k as int),
                decreases w - k,
            {
                let g = if grid[j][k] {
                    STATUS::ALIVE.get_char()
                } else {
                    STATUS::DEAD.get_char()
                };
                proof {
                    assert(row.subrange(0, k + 1) == row.subrange(0, k as int).push(g));
                }
                push_char(&mut r, g);
                k = k + 1;
            }
            push_char(&mut r, '\n');
            proof {
                assert(row.subrange(0, w as int) == row);
                assert(lines[j as int] == with_newline(row));
                assert(lines.subrange(0, j + 1) == lines.subrange(0, j as int).push(with_newline(row)));
                lines.subrange(0, j as int).lemma_flatten_push(with_newline(row));
            }
            j = j + 1;
        }
        assert(lines.subrange(0, h as int) == lines);
        r
    }

    /// The snapshot text of the live cells: the rows of their bounding box,
    /// top to bottom, one glyph per column, each row ended by a newline;
    /// empty when no cell is alive.
    pub fn board_to_string(&self) -> (r: String)
        requires
            self.wf(),
        ensures
            r@ == snapshot_text(self.alive()),
    {
        proof {
            self.lemma_active_is_alive();
            lemma_live_positions_all_alive(self.actual@);
        }
        Self::active_cell_to_string(&self.actual)
    }

    /// The snapshot text of the live cells the board was created with.
    pub fn initial_board_to_string(&self) -> (r: String)
        requires
            self.wf(),
        ensures
            r@ == snapshot_text(self.initial()),
    {
        proof {
            lemma_live_positions_all_alive(self.initial_state@);
        }
        Self::active_cell_to_string(&self.initial_state)
    }
}

} // verus!
