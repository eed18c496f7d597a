//! The session: the board, the score, and whether the game is over.

use vstd::prelude::*;

use crate::engine::{
    gain, lemma_changed_leaves_room, move_down, move_gain, move_left, move_right, move_up, moved,
    Arrow,
};
use crate::grid::{empty_board, Grid};
use crate::spawn::{spawn_tile, spawned};
use crate::terminal::is_over;

verus! {

/// What the player asks for.
#[derive(Clone, Copy, PartialEq, Eq, Debug, Structural)]
pub enum Message {
    Move(Arrow),
    Reset,
}

/// A game: its board, the score so far, and whether it is over.
#[derive(Debug)]
pub struct Game2048 {
    pub board: Grid,
    pub score: u32,
    pub game_over: bool,
}

impl Game2048 {
    /// A game at its start: one tile on the board, no score, not over.
    pub open spec fn fresh(&self) -> bool {
        &&& spawned(empty_board(), self.board@)
        &&& self.score == 0
        &&& !self.game_over
    }

    /// The score can take up what the message adds to it.
    pub open spec fn accepts(&self, message: Message) -> bool {
        match message {
            Message::Move(d) => self.game_over || self.score + gain(self.board@, d) <= u32::MAX,
            Message::Reset => true,
        }
    }

    /// A game at its start.
    pub fn new() -> (game: Game2048)
        ensures
            game.fresh(),
    {
        let board = Grid::new();
        assert(board@[0][0] is None);
        let board = spawn_tile(&board).unwrap();
        Game2048 { board, score: 0, game_over: false }
    }

    /// Whether `update` can take the message: whether the score it would
    /// reach fits.
    pub fn can_update(&self, message: Message) -> (ok: bool)
        ensures
            ok == self.accepts(message),
    {
        match message {
            Message::Move(d) => {
                if self.game_over {
                    true
                } else {
                    let limit: u64 = 0xffff_ffff;
                    self.score as u64 + move_gain(&self.board, d) <= limit
                }
            },
            Message::Reset => true,
        }
    }

    /// Handles one message. A move that changes the board adds its gain to
    /// the score and is followed by a new tile; a move that changes nothing,
    /// or that comes when the game is over, is ignored. A reset starts a new
    /// game.
    pub fn update(&mut self, message: Message)
        requires
            old(self).accepts(message),
        ensures
            match message {
                Message::Reset => final(self).fresh(),
                Message::Move(d) => if old(self).game_over || moved(old(self).board@, d) == old(
                    self,
                ).board@ {
                    &&& final(self).board@ == old(self).board@
                    &&& final(self).score == old(self).score
                    &&& final(self).game_over == old(self).game_over
                } else {
                    &&& spawned(moved(old(self).board@, d), final(self).board@)
                    &&& final(self).score == old(self).score + gain(old(self).board@, d)
                    &&& !final(self).game_over
                },
            },
    {
        match message {
            Message::Move(arr) => {
                if self.game_over {
                    return ;
                }
                let result = match arr {
                    Arrow::Up => move_up(&self.board),
                    Arrow::Down => move_down(&self.board),
                    Arrow::Left => move_left(&self.board),
                    Arrow::Right => move_right(&self.board),
                };
                if let Some((x, gained)) = result {
                    proof {
                        use_type_invariant(&self.board);
                        lemma_changed_leaves_room(self.board@, arr);
                    }
                    self.score = self.score + gained;
                    if let Some(y) = spawn_tile(&x) {
                        self.board = y;
                    } else {
                        // A move that changed the board has left a cell
                        // empty, so this is not reached.
                        self.board = x;
                        if is_over(&self.board) {
                            self.game_over = true;
                        }
                    }
                }
            },
            Message::Reset => {
                let fresh = Game2048::new();
                self.board = fresh.board;
                self.score = fresh.score;
                self.game_over = fresh.game_over;
            },
        }
    }
}

impl Default for Game2048 {
    /// A game at its start.
    fn default() -> (game: Game2048)
        ensures
            game.fresh(),
    {
        Game2048::new()
    }
}

} // verus!
