//! The decisions of the interactive driver: how many generations to step,
//! when to rewind, and what to save. Reading the clock, drawing and writing
//! files are left to the caller, which hands the outcome in as plain values.

use vstd::prelude::*;

use std::time::Duration;

use crate::board::snapshot::snapshot_text;
use crate::board::{in_range, next_generation, push_history, Board};

verus! {

/// The pace of the simulation and how many generations it has advanced
/// beyond the one it started from.
#[derive(Clone, Copy)]
pub struct Constants {
    pub refresh_rate: Duration,
    pub turns: usize,
}

impl Constants {
    pub fn new(refresh_rate: Duration) -> (r: Self)
        ensures
            r.refresh_rate == refresh_rate,
            r.turns == 0,
    {
        Constants { refresh_rate, turns: 0 }
    }
}

/// A button of the control panel.
#[allow(non_camel_case_types)]
#[derive(Clone, Copy, PartialEq, Eq, Debug, Structural)]
pub enum UiButton {
    NEXT,
    PREV,
    STOP,
    PLAY,
    SAVE_MAP,
    SAVE_INIT_MAP,
}

/// The state of an interactive run: the board, the pace, the generations
/// asked for but not yet taken (negative for rewinds), and whether the
/// simulation plays on its own.
pub struct MyGame {
    board: Board,
    constants: Constants,
    game_step: i64,
    play: bool,
}

impl MyGame {
    pub closed spec fn board_view(&self) -> Board {
        self.board
    }

    pub closed spec fn turns(&self) -> nat {
        self.constants.turns as nat
    }

    pub closed spec fn refresh_rate(&self) -> Duration {
        self.constants.refresh_rate
    }

    pub closed spec fn pending(&self) -> int {
        self.game_step as int
    }

    pub closed spec fn playing(&self) -> bool {
        self.play
    }

    pub open spec fn wf(&self) -> bool {
        self.board_view().wf()
    }

    /// A stopped game on `board`, with nothing pending.
    pub fn new(board: Board, refresh_rate: Duration) -> (g: Self)
        requires
            board.wf(),
        ensures
            g.wf(),
            g.board_view() == board,
            g.refresh_rate() == refresh_rate,
            g.turns() == 0,
            g.pending() == 0,
            !g.playing(),
    {
        MyGame { board, constants: Constants::new(refresh_rate), game_step: 0, play: false }
    }

    /// The board.
    pub fn board(&self) -> (r: &Board)
        ensures
            *r == self.board_view(),
    {
        &self.board
    }

    /// The pace and the count of generations advanced.
    pub fn constants(&self) -> (r: Constants)
        ensures
            r.turns == self.turns(),
            r.refresh_rate == self.refresh_rate(),
    {
        self.constants
    }

    /// Sets the pace of the simulation.
    pub fn set_refresh_rate(&mut self, refresh_rate: Duration)
        ensures
            final(self).refresh_rate() == refresh_rate,
            final(self).turns() == old(self).turns(),
            final(self).board_view() == old(self).board_view(),
            final(self).pending() == old(self).pending(),
            final(self).playing() == old(self).playing(),
    {
        self.constants.refresh_rate = refresh_rate;
    }

    /// Advances the board by one generation and counts it.
    pub fn next(&mut self)
        requires
            old(self).wf(),
        ensures
            final(self).wf(),
            final(self).board_view().size() == old(self).board_view().size(),
            final(self).board_view().alive() == next_generation(
                old(self).board_view().alive(),
                old(self).board_view().size() as int,
            ),
            final(self).board_view().history_view() == push_history(
                old(self).board_view().history_view(),
                old(self).board_view().alive(),
            ),
            final(self).board_view().initial() == old(self).board_view().initial(),
            final(self).turns() == if old(self).turns() < usize::MAX {
                old(self).turns() + 1
            } else {
                old(self).turns()
            },
            final(self).refresh_rate() == old(self).refresh_rate(),
            final(self).pending() == old(self).pending(),
            final(self).playing() == old(self).playing(),
    {
        self.board.next();
        if self.constants.turns < usize::MAX {
            self.constants.turns = self.constants.turns + 1;
        }
    }

    /// Rewinds the board by one generation when it has advanced at all;
    /// otherwise nothing changes.
    pub fn prev(&mut self)
        requires
            old(self).wf(),
        ensures
            final(self).wf(),
            final(self).pending() == old(self).pending(),
            final(self).playing() == old(self).playing(),
            final(self).refresh_rate() == old(self).refresh_rate(),
            old(self).turns() == 0 ==> final(self).board_view() == old(self).board_view()
                && final(self).turns() == 0,
            old(self).turns() > 0 ==> {
                let b0 = old(self).board_view();
                let b1 = final(self).board_view();
                &&& final(self).turns() == old(self).turns() - 1
                &&& b1.size() == b0.size()
                &&& b1.initial() == b0.initial()
                &&& b0.history_view().len() == 0 ==> b1.alive() == b0.alive()
                    && b1.history_view() == b0.history_view()
                &&& b0.history_view().len() > 0 ==> b1.alive() == b0.history_view()[0]
                    && b1.history_view() == b0.history_view().drop_first()
            },
    {
        if self.constants.turns > 0 {
            self.board.prev();
            self.constants.turns = self.constants.turns - 1;
        }
    }

    /// Toggles the cell at `(x, y)` between dead and alive; off the board
    /// nothing changes.
    pub fn inverse_cell(&mut self, x: i32, y: i32)
        requires
            old(self).wf(),
        ensures
            final(self).wf(),
            final(self).turns() == old(self).turns() && final(self).refresh_rate() == old(self).refresh_rate(),
            final(self).pending() == old(self).pending(),
            final(self).playing() == old(self).playing(),
            final(self).board_view().size() == old(self).board_view().size(),
            final(self).board_view().history_view() == old(self).board_view().history_view(),
            final(self).board_view().initial() == old(self).board_view().initial(),
            final(self).board_view().alive() == if !in_range(
                old(self).board_view().size() as int,
                x as int,
                y as int,
            ) {
                old(self).board_view().alive()
            } else if old(self).board_view().alive().contains((x as int, y as int)) {
                old(self).board_view().alive().remove((x as int, y as int))
            } else {
                old(self).board_view().alive().insert((x as int, y as int))
            },
    {
        self.board.inverse_cell(x, y);
    }

    /// Acts on the button pressed since the last frame, if any: `NEXT` and
    /// `PREV` ask for one more generation forward or backward, `PLAY` and
    /// `STOP` start and stop the simulation, and the two save buttons give
    /// the snapshot text to save (of the live cells now, or of those the
    /// board started with).
    pub fn update_button(&mut self, button: Option<UiButton>) -> (r: Option<String>)
        requires
            old(self).wf(),
        ensures
            final(self).wf(),
            final(self).board_view() == old(self).board_view(),
            final(self).turns() == old(self).turns() && final(self).refresh_rate() == old(self).refresh_rate(),
            final(self).pending() == match button {
                Some(UiButton::NEXT) => if old(self).pending() < i64::MAX {
                    old(self).pending() + 1
                } else {
                    old(self).pending()
                },
                Some(UiButton::PREV) => if old(self).pending() > i64::MIN {
                    old(self).pending() - 1
                } else {
                    old(self).pending()
                },
                _ => old(self).pending(),
            },
            final(self).playing() == match button {
                Some(UiButton::PLAY) => true,
                Some(UiButton::STOP) => false,
                _ => old(self).playing(),
            },
            match button {
                Some(UiButton::SAVE_MAP) => r is Some && r->0@ == snapshot_text(
                    old(self).board_view().alive(),
                ),
                Some(UiButton::SAVE_INIT_MAP) => r is Some && r->0@ == snapshot_text(
                    old(self).board_view().initial(),
                ),
                _ => r is None,
            },
    {
        match button {
            Some(UiButton::NEXT) => {
                if self.game_step < i64::MAX {
                    self.game_step = self.game_step + 1;
                }
                None
            },
            Some(UiButton::PREV) => {
                if self.game_step > i64::MIN {
                    self.game_step = self.game_step - 1;
                }
                None
            },
            Some(UiButton::STOP) => {
                self.play = false;
                None
            },
            Some(UiButton::PLAY) => {
                self.play = true;
                None
            },
            Some(UiButton::SAVE_MAP) => Some(self.board.board_to_string()),
            Some(UiButton::SAVE_INIT_MAP) => Some(self.board.initial_board_to_string()),
            None => None,
        }
    }

    /// One frame of the simulation. When it plays and `interval_elapsed`
    /// (the refresh interval has passed since the last step forward), one
    /// more generation is asked for. Then one pending step is taken: forward
    /// with `next`, or backward with `prev`. Returns whether a step forward
    /// was taken, so that the caller restarts its interval.
    pub fn update(&mut self, interval_elapsed: bool) -> (stepped: bool)
        requires
            old(self).wf(),
        ensures
            final(self).wf(),
            final(self).playing() == old(self).playing(),
            final(self).refresh_rate() == old(self).refresh_rate(),
            ({
                let asked = if interval_elapsed && old(self).playing() && old(self).pending()
                    < i64::MAX {
                    old(self).pending() + 1
                } else {
                    old(self).pending()
                };
                let b0 = old(self).board_view();
                let b1 = final(self).board_view();
                &&& stepped == (asked > 0)
                &&& asked > 0 ==> final(self).pending() == asked - 1 && b1.alive()
                    == next_generation(b0.alive(), b0.size() as int) && b1.history_view()
                    == push_history(b0.history_view(), b0.alive())
                &&& asked < 0 ==> final(self).pending() == asked + 1
                &&& asked < 0 && old(self).turns() > 0 ==> final(self).turns()
                    == old(self).turns() - 1
                &&& asked < 0 && old(self).turns() > 0 && b0.history_view().len() > 0 ==> b1.alive()
                    == b0.history_view()[0] && b1.history_view() == b0.history_view().drop_first()
                &&& asked < 0 && old(self).turns() > 0 && b0.history_view().len() == 0 ==> b1.alive()
                    == b0.alive() && b1.history_view() == b0.history_view()
                &&& asked > 0 ==> final(self).turns() == if old(self).turns() < usize::MAX {
                    old(self).turns() + 1
                } else {
                    old(self).turns()
                }
                &&& asked < 0 && old(self).turns() == 0 ==> b1 == b0 && final(self).turns() == 0
                &&& asked == 0 ==> final(self).pending() == 0 && b1 == b0
                    && final(self).turns() == old(self).turns() && final(self).refresh_rate() == old(self).refresh_rate()
            }),
    {
        if interval_elapsed && self.play && self.game_step < i64::MAX {
            self.game_step = self.game_step + 1;
        }
        if self.game_step > 0 {
            self.next();
            self.game_step = self.game_step - 1;
            true
        } else if self.game_step < 0 {
            self.prev();
            self.game_step = self.game_step + 1;
            false
        } else {
            false
        }
    }
}

} // verus!
