use vstd::prelude::*;

use crate::board::{zero_counts, Board, Status};
use crate::knight::{jumps_fit, on_board, valid_moves, Point};
use crate::walk::walk_end;
use crate::game::{Game, GameStats};

verus! {

/// A series of games played either move by move, for an animation, or a
/// game at a time, with the number of moves of the game in progress.
pub struct WasmGame {
    pub game: Game,
    pub move_num: u64,
}

impl WasmGame {
    /// A fresh series on a `size` x `size` board (see `Game::new`), with no
    /// move made yet.
    pub fn new(size: i32) -> (w: WasmGame)
        requires
            0 <= size,
        ensures
            crate::game::standard_board(w.game.board, size as int),
            w.game.stats.wins == 0,
            w.game.stats.looses == 0,
            w.game.moves@.len() == 0,
            w.game.consistent(),
            w.move_num == 0,
    {
        WasmGame { game: Game::new(size), move_num: 0 }
    }

    /// Makes one random move of the game in progress. Gives 1 when the
    /// knight landed on the winning square, 2 when it landed on the losing
    /// one (the outcome is then tallied and the game's number of moves
    /// recorded), and 0 otherwise.
    pub fn step(&mut self) -> (r: u8)
        requires
            old(self).game.board.wf(),
            jumps_fit(old(self).game.board.current),
            old(self).game.board.move_possible(),
            old(self).move_num < u64::MAX,
            old(self).game.stats.wins < u64::MAX,
            old(self).game.stats.looses < u64::MAX,
        ensures
            valid_moves(old(self).game.board.size as int, old(self).game.board.current).contains(
                final(self).game.board.current,
            ),
            final(self).game.board.is_landing(old(self).game.board, final(self).game.board.current),
            final(self).move_num == old(self).move_num + 1,
            r == (match final(self).game.board.status_of() {
                Status::Won => 1u8,
                Status::Lost => 2u8,
                Status::Ongoing => 0u8,
            }),
            final(self).game.stats.wins == old(self).game.stats.wins + (if r == 1 { 1int } else { 0int }),
            final(self).game.stats.looses == old(self).game.stats.looses + (if r == 2 { 1int } else { 0int }),
            old(self).game.corners_tallied() ==> final(self).game.corners_tallied(),
            final(self).game.moves@ == (if r == 0 {
                old(self).game.moves@
            } else {
                old(self).game.moves@.push(final(self).move_num)
            }),
    {
        self.game.board.next_move();
        self.move_num = self.move_num + 1;
        match self.game.board.status() {
            Status::Won => {
                self.game.stats.wins = self.game.stats.wins + 1;
                self.game.moves.push(self.move_num);
                1
            },
            Status::Lost => {
                self.game.stats.looses = self.game.stats.looses + 1;
                self.game.moves.push(self.move_num);
                2
            },
            Status::Ongoing => 0,
        }
    }

    /// Puts the knight back on the start square for a new game; the tally,
    /// the recorded games and the visit counts stay.
    pub fn reset_board(&mut self)
        ensures
            final(self).game.board == (Board { current: old(self).game.board.start, ..old(self).game.board }),
            final(self).game.stats == old(self).game.stats,
            final(self).game.moves@ == old(self).game.moves@,
            final(self).move_num == 0,
    {
        self.game.board.reset();
        self.move_num = 0;
    }

    /// Plays `iterations` whole games: see `Game::run`, whose contract this
    /// shares. The count of moves of the game in progress is left as it is.
    pub fn run_simulation(&mut self, iterations: u32) -> (done: bool)
        requires
            iterations > 0 ==> old(self).game.playable(),
            old(self).game.stats.wins + iterations <= u64::MAX,
            old(self).game.stats.looses + iterations <= u64::MAX,
        ensures
            final(self).move_num == old(self).move_num,
            iterations == 0 ==> done && final(self).game == old(self).game,
            old(self).game.playable() ==> final(self).game.playable(),
            old(self).game.corners_tallied() ==> final(self).game.corners_tallied(),
            final(self).game.board.size == old(self).game.board.size,
            final(self).game.board.start == old(self).game.board.start,
            final(self).game.board.win == old(self).game.board.win,
            final(self).game.board.loose == old(self).game.board.loose,
            old(self).game.moves@.len() <= final(self).game.moves@.len() <= old(self).game.moves@.len() + iterations,
            final(self).game.moves@.subrange(0, old(self).game.moves@.len() as int) == old(self).game.moves@,
            done <==> final(self).game.moves@.len() == old(self).game.moves@.len() + iterations,
            forall|i: int|
                old(self).game.moves@.len() <= i < final(self).game.moves@.len()
                    ==> #[trigger] final(self).game.moves@[i] >= 1,
            final(self).game.stats.wins >= old(self).game.stats.wins,
            final(self).game.stats.looses >= old(self).game.stats.looses,
            final(self).game.stats.wins + final(self).game.stats.looses == old(self).game.stats.wins
                + old(self).game.stats.looses + final(self).game.moves@.len() - old(self).game.moves@.len(),
            done ==> final(self).game.board.total_visits() == old(self).game.board.total_visits()
                + crate::game::seq_total(final(self).game.moves@) - crate::game::seq_total(old(self).game.moves@),
            done && iterations > 0 ==> final(self).game.board.ends_game(final(self).game.board.current),
            old(self).game.consistent() && done ==> final(self).game.consistent(),
            exists|walks: Seq<Seq<Point>>, rest: Seq<Point>|
                #![trigger final(self).game.played(old(self).game, walks, rest)]
                {
                    &&& final(self).game.played(old(self).game, walks, rest)
                    &&& done ==> rest.len() == 0
                    &&& done && iterations > 0 ==> final(self).game.board.current == walks.last().last()
                    &&& !done ==> final(self).game.board.game_report(rest, None)
                    &&& !done ==> final(self).game.board.current == walk_end(
                        final(self).game.board.start,
                        rest,
                    )
                },
    {
        self.game.run(iterations as u64)
    }

    /// The board's size.
    pub fn board_size(&self) -> (r: i32)
        ensures
            r == self.game.board.size,
    {
        self.game.board.size
    }

    /// The knight's column.
    pub fn current_x(&self) -> (r: i32)
        ensures
            r == self.game.board.current.x,
    {
        self.game.board.current.x
    }

    /// The knight's row.
    pub fn current_y(&self) -> (r: i32)
        ensures
            r == self.game.board.current.y,
    {
        self.game.board.current.y
    }

    /// The number of moves of the game in progress, cut to 32 bits.
    pub fn move_num(&self) -> (r: u32)
        ensures
            r == self.move_num as u32,
    {
        self.move_num as u32
    }

    /// The number of games won, cut to 32 bits.
    pub fn wins(&self) -> (r: u32)
        ensures
            r == self.game.stats.wins as u32,
    {
        self.game.stats.wins as u32
    }

    /// The number of games lost, cut to 32 bits.
    pub fn losses(&self) -> (r: u32)
        ensures
            r == self.game.stats.looses as u32,
    {
        self.game.stats.looses as u32
    }

    /// Starts over: the knight back on the start square, every visit count,
    /// the tally and the recorded games cleared.
    pub fn reset_game(&mut self)
        requires
            0 <= old(self).game.board.size,
        ensures
            final(self).game.board.wf(),
            final(self).game.board.size == old(self).game.board.size,
            final(self).game.board.start == old(self).game.board.start,
            final(self).game.board.current == old(self).game.board.start,
            final(self).game.board.win == old(self).game.board.win,
            final(self).game.board.loose == old(self).game.board.loose,
            final(self).game.board.counts_cleared(),
            final(self).game.stats.wins == 0,
            final(self).game.stats.looses == 0,
            final(self).game.moves@.len() == 0,
            final(self).game.consistent(),
            final(self).move_num == 0,
            old(self).game.board.win != old(self).game.board.loose && on_board(
                old(self).game.board.size as int,
                old(self).game.board.win,
            ) && on_board(old(self).game.board.size as int, old(self).game.board.loose)
                ==> final(self).game.corners_tallied(),
            old(self).game.board.start == (Point { x: 0, y: 0 }) && old(self).game.board.win == (Point {
                x: (old(self).game.board.size - 1) as i32,
                y: (old(self).game.board.size - 1) as i32,
            }) && old(self).game.board.loose == (Point { x: (old(self).game.board.size - 1) as i32, y: 0 })
                ==> crate::game::standard_board(final(self).game.board, old(self).game.board.size as int),
    {
        self.game.board.reset();
        self.game.board.visit_counts = zero_counts(self.game.board.size as usize);
        self.game.stats = GameStats { wins: 0, looses: 0 };
        self.game.moves.clear();
        self.move_num = 0;
        proof {
            self.game.board.lemma_cleared_total();
        }
    }
}

} // verus!
