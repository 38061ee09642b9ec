//! A single cell and the birth / survival rule.

use vstd::prelude::*;

verus! {

/// Whether a cell is alive or dead.
#[derive(Clone, Copy, PartialEq, Eq, Debug, Hash, Structural)]
pub enum STATUS {
    DEAD,
    ALIVE,
}

/// The glyph that stands for a dead cell in a seed pattern or a snapshot.
pub const DEAD_CHAR: char = '.';

/// The glyph that stands for a live cell in a seed pattern or a snapshot.
pub const ALIVE_CHAR: char = 'O';

/// The glyph of a status.
pub open spec fn status_char(s: STATUS) -> char {
    match s {
        STATUS::DEAD => '.',
        STATUS::ALIVE => 'O',
    }
}

/// The two glyphs that a seed pattern may hold.
pub open spec fn is_status_char(c: char) -> bool {
    c == '.' || c == 'O'
}

/// The status that a glyph stands for (meaningful on the two glyphs only).
pub open spec fn char_status(c: char) -> STATUS {
    if c == 'O' {
        STATUS::ALIVE
    } else {
        STATUS::DEAD
    }
}

/// The other status.
pub open spec fn inverse_of(s: STATUS) -> STATUS {
    match s {
        STATUS::DEAD => STATUS::ALIVE,
        STATUS::ALIVE => STATUS::DEAD,
    }
}

/// The fixed birth / survival rule: a live cell survives with two or three
/// live neighbours, a dead cell is born with exactly three; every other cell
/// is dead in the next generation.
pub open spec fn rule(s: STATUS, n: nat) -> STATUS {
    match s {
        STATUS::ALIVE => if n == 2 || n == 3 {
            STATUS::ALIVE
        } else {
            STATUS::DEAD
        },
        STATUS::DEAD => if n == 3 {
            STATUS::ALIVE
        } else {
            STATUS::DEAD
        },
    }
}

impl STATUS {
    /// The glyph of this status: `'.'` for dead, `'O'` for alive.
    pub fn get_char(self) -> (c: char)
        ensures
            c == status_char(self),
            is_status_char(c),
    {
        if STATUS::DEAD == self {
            DEAD_CHAR
        } else {
            ALIVE_CHAR
        }
    }

    /// The status of a glyph; only the two glyphs of a seed pattern are read.
    pub fn get_from_char(s: char) -> (r: STATUS)
        requires
            is_status_char(s),
        ensures
            r == char_status(s),
            status_char(r) == s,
    {
        if s == DEAD_CHAR {
            STATUS::DEAD
        } else {
            STATUS::ALIVE
        }
    }

    /// The other status.
    pub fn inverse(self) -> (r: Self)
        ensures
            r == inverse_of(self),
            r != self,
    {
        if STATUS::ALIVE == self {
            STATUS::DEAD
        } else {
            STATUS::ALIVE
        }
    }

    pub fn is_alive(self) -> (b: bool)
        ensures
            b == (self == STATUS::ALIVE),
    {
        self == STATUS::ALIVE
    }
}

/// A cell of the board: a position and a status.
#[derive(Clone, Copy, PartialEq, Eq, Debug, Hash, Structural)]
pub struct Cell {
    pub x: i32,
    pub y: i32,
    pub status: STATUS,
}

impl Cell {
    pub fn new(x: i32, y: i32, status: STATUS) -> (c: Self)
        ensures
            c == (Cell { x, y, status }),
    {
        Cell { x, y, status }
    }

    /// Is this cell alive.
    pub fn is_alive(&self) -> (b: bool)
        ensures
            b == (self.status == STATUS::ALIVE),
    {
        self.status.is_alive()
    }

    /// This cell in the next generation, given how many of its eight
    /// neighbours are alive.
    pub fn apply_rules(&self, adj_live_cells: usize) -> (r: Cell)
        ensures
            r.x == self.x,
            r.y == self.y,
            r.status == rule(self.status, adj_live_cells as nat),
    {
        if self.is_alive() && (adj_live_cells > 3 || adj_live_cells < 2) {
            Cell::new(self.x, self.y, STATUS::DEAD)
        } else if self.is_alive() {
            Cell::new(self.x, self.y, STATUS::ALIVE)
        } else if adj_live_cells == 3 {
            Cell::new(self.x, self.y, STATUS::ALIVE)
        } else {
            Cell::new(self.x, self.y, STATUS::DEAD)
        }
    }
}

} // verus!
