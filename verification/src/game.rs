use vstd::prelude::*;

use crate::board::Board;
use crate::knight::{keeps_moving, on_board, size_fits, Point};
use crate::walk::{is_walk, lemma_visits_last, lemma_visits_none, visits, walk_end};

verus! {

/// How many games were won and how many lost.
pub struct GameStats {
    pub wins: u64,
    pub looses: u64,
}

/// A series of knight games on one board: the board with its visit counts,
/// the tally of outcomes, and the number of moves of each finished game.
pub struct Game {
    pub board: Board,
    pub stats: GameStats,
    pub moves: Vec<u64>,
}

/// The sum of `s`.
pub open spec fn seq_total(s: Seq<u64>) -> int
    decreases s.len(),
{
    if s.len() == 0 {
        0
    } else {
        seq_total(s.drop_last()) + s.last()
    }
}

/// How many times the games of `walks` land on square `(x, y)`.
pub open spec fn visits_in(walks: Seq<Seq<Point>>, x: int, y: int) -> int
    decreases walks.len(),
{
    if walks.len() == 0 {
        0
    } else {
        visits_in(walks.drop_last(), x, y) + visits(walks.last(), x, y)
    }
}

/// How many of the games of `walks` end on the square `win`.
pub open spec fn wins_in(win: Point, walks: Seq<Seq<Point>>) -> int
    decreases walks.len(),
{
    if walks.len() == 0 {
        0
    } else {
        wins_in(win, walks.drop_last()) + (if walks.last().last() == win { 1int } else { 0int })
    }
}

/// The board on which a knight starts bottom left and plays for the top
/// right corner against the bottom right one.
pub open spec fn standard_board(b: Board, size: int) -> bool {
    &&& b.wf()
    &&& b.size == size
    &&& b.start == Point { x: 0, y: 0 }
    &&& b.current == b.start
    &&& b.win == Point { x: (size - 1) as i32, y: (size - 1) as i32 }
    &&& b.loose == Point { x: (size - 1) as i32, y: 0 }
    &&& b.counts_cleared()
}

/// One more whole game, tallied and recorded, extends what was played.
proof fn lemma_played_one_more(
    before: Game,
    prev: Game,
    cur: Game,
    walks: Seq<Seq<Point>>,
    walk: Seq<Point>,
    won: bool,
)
    requires
        prev.played(before, walks, seq![]),
        cur.board.walked(prev.board, walk),
        cur.board.game_report(walk, Some((won, walk.len() as u64))),
        cur.moves@ == prev.moves@.push(walk.len() as u64),
        cur.stats.wins == prev.stats.wins + (if won { 1int } else { 0int }),
        cur.stats.looses == prev.stats.looses + (if won { 0int } else { 1int }),
    ensures
        cur.played(before, walks.push(walk), seq![]),
{
    let w2 = walks.push(walk);
    let n = before.moves@.len();
    assert(w2.drop_last() =~= walks);
    assert(cur.moves@.subrange(0, n as int) =~= before.moves@) by {
        assert(prev.moves@.subrange(0, n as int) == before.moves@);
    }
    assert forall|i: int| 0 <= i < w2.len() implies cur.board.is_game(#[trigger] w2[i]) && cur.moves@[n + i]
        == w2[i].len() by {
        if i < walks.len() {
            assert(w2[i] == walks[i]);
            assert(prev.board.is_game(walks[i]));
        }
    }
    assert forall|x: int, y: int| 0 <= x < cur.board.size && 0 <= y < cur.board.size implies #[trigger] cur.board.count_at(
        x,
        y,
    ) == before.board.count_at(x, y) + visits_in(w2, x, y) + visits(seq![], x, y) by {
        assert(prev.board.count_at(x, y) == before.board.count_at(x, y) + visits_in(walks, x, y) + visits(
            seq![],
            x,
            y,
        ));
    }
}

/// A game that could not be finished leaves its moves counted on the board.
proof fn lemma_played_unfinished(
    before: Game,
    prev: Game,
    cur: Game,
    walks: Seq<Seq<Point>>,
    rest: Seq<Point>,
)
    requires
        prev.played(before, walks, seq![]),
        cur.board.walked(prev.board, rest),
        cur.moves@ == prev.moves@,
        cur.stats == prev.stats,
    ensures
        cur.played(before, walks, rest),
{
    assert forall|i: int| 0 <= i < walks.len() implies cur.board.is_game(#[trigger] walks[i]) by {
        assert(prev.board.is_game(walks[i]));
    }
    assert forall|x: int, y: int| 0 <= x < cur.board.size && 0 <= y < cur.board.size implies #[trigger] cur.board.count_at(
        x,
        y,
    ) == before.board.count_at(x, y) + visits_in(walks, x, y) + visits(rest, x, y) by {
        assert(prev.board.count_at(x, y) == before.board.count_at(x, y) + visits_in(walks, x, y) + visits(
            seq![],
            x,
            y,
        ));
    }
}

/// A finished game raises the count of the winning corner exactly when it
/// is won and that of the losing corner exactly when it is lost.
proof fn lemma_finished_game_corners(prev: Game, cur: Game, walk: Seq<Point>, won: bool)
    requires
        prev.corners_tallied(),
        cur.board.walked(prev.board, walk),
        cur.board.game_report(walk, Some((won, walk.len() as u64))),
        cur.stats.wins == prev.stats.wins + (if won { 1int } else { 0int }),
        cur.stats.looses == prev.stats.looses + (if won { 0int } else { 1int }),
    ensures
        cur.corners_tallied(),
{
    let b = cur.board;
    lemma_visits_last(walk, b.win);
    lemma_visits_last(walk, b.loose);
    assert(cur.board.count_at(b.win.x as int, b.win.y as int) == prev.board.count_at(b.win.x as int, b.win.y as int)
        + visits(walk, b.win.x as int, b.win.y as int));
    assert(cur.board.count_at(b.loose.x as int, b.loose.y as int) == prev.board.count_at(
        b.loose.x as int,
        b.loose.y as int,
    ) + visits(walk, b.loose.x as int, b.loose.y as int));
}

/// A game that was not finished never landed on a corner, so the corner
/// counts stay as they were.
proof fn lemma_unfinished_game_corners(prev: Game, cur: Game, rest: Seq<Point>)
    requires
        prev.corners_tallied(),
        cur.board.walked(prev.board, rest),
        cur.board.game_report(rest, None),
        cur.stats == prev.stats,
    ensures
        cur.corners_tallied(),
{
    let b = cur.board;
    lemma_visits_none(rest, b.win);
    lemma_visits_none(rest, b.loose);
    assert(cur.board.count_at(b.win.x as int, b.win.y as int) == prev.board.count_at(b.win.x as int, b.win.y as int)
        + visits(rest, b.win.x as int, b.win.y as int));
    assert(cur.board.count_at(b.loose.x as int, b.loose.y as int) == prev.board.count_at(
        b.loose.x as int,
        b.loose.y as int,
    ) + visits(rest, b.loose.x as int, b.loose.y as int));
}

impl Game {
    /// The winning and losing corners are two squares of the board, and
    /// the knight has landed on the winning one once per game won and on
    /// the losing one once per game lost.
    pub open spec fn corners_tallied(&self) -> bool {
        &&& self.board.win != self.board.loose
        &&& on_board(self.board.size as int, self.board.win)
        &&& on_board(self.board.size as int, self.board.loose)
        &&& self.board.count_at(self.board.win.x as int, self.board.win.y as int) == self.stats.wins
        &&& self.board.count_at(self.board.loose.x as int, self.board.loose.y as int) == self.stats.looses
    }

    /// The games can be played: the board is well formed, small enough for
    /// knight jumps to be computed, and the knight can always move on from
    /// the start square.
    pub open spec fn playable(&self) -> bool {
        &&& self.board.wf()
        &&& size_fits(self.board.size as int)
        &&& keeps_moving(self.board.size as int, self.board.start)
    }

    /// `self` is `before` after the whole games `walks` were played, in
    /// order, followed by the moves `rest` of a game that was not finished:
    /// each game's number of moves recorded, its outcome tallied, and each
    /// landing counted on the board.
    pub open spec fn played(&self, before: Game, walks: Seq<Seq<Point>>, rest: Seq<Point>) -> bool {
        let k = walks.len();
        let n = before.moves@.len();
        &&& self.moves@.len() == n + k
        &&& self.moves@.subrange(0, n as int) == before.moves@
        &&& forall|i: int|
            0 <= i < k ==> self.board.is_game(#[trigger] walks[i]) && self.moves@[n + i] == walks[i].len()
        &&& self.stats.wins == before.stats.wins + wins_in(self.board.win, walks)
        &&& self.stats.looses == before.stats.looses + k - wins_in(self.board.win, walks)
        &&& is_walk(self.board.size as int, self.board.start, rest)
        &&& forall|x: int, y: int|
            0 <= x < self.board.size && 0 <= y < self.board.size ==> #[trigger] self.board.count_at(x, y)
                == before.board.count_at(x, y) + visits_in(walks, x, y) + visits(rest, x, y)
    }

    /// Every finished game is tallied once, and every move of every finished
    /// game is counted once on the board.
    pub open spec fn consistent(&self) -> bool {
        &&& self.stats.wins + self.stats.looses == self.moves@.len()
        &&& self.board.total_visits() == seq_total(self.moves@)
    }

    /// A fresh series on a `size` x `size` board: start bottom left, win top
    /// right, lose bottom right, nothing counted or played yet.
    pub fn new(size: i32) -> (g: Self)
        requires
            0 <= size,
        ensures
            standard_board(g.board, size as int),
            g.stats.wins == 0,
            g.stats.looses == 0,
            g.moves@.len() == 0,
            g.consistent(),
            2 <= size ==> g.corners_tallied(),
            3 <= size <= 0x7fff_fffe ==> g.playable(),
    {
        let start = Point { x: 0, y: 0 };
        let win = Point { x: size - 1, y: size - 1 };
        let loose = Point { x: size - 1, y: 0 };
        Game {
            board: Board::new(size, start, win, loose),
            stats: GameStats { wins: 0, looses: 0 },
            moves: vec![],
        }
    }

    /// Plays `iterations` games one after another, tallying each outcome and
    /// recording each game's number of moves. Gives `true` when all were
    /// played; it stops early, giving `false`, only where a game would push
    /// a counter past `u64::MAX` (see `Board::play_game`), and that game is
    /// then not recorded. With no iterations nothing changes.
    pub fn run(&mut self, iterations: u64) -> (done: bool)
        requires
            iterations > 0 ==> old(self).playable(),
            old(self).stats.wins + iterations <= u64::MAX,
            old(self).stats.looses + iterations <= u64::MAX,
        ensures
            iterations == 0 ==> done && *final(self) == *old(self),
            old(self).playable() ==> final(self).playable(),
            old(self).corners_tallied() ==> final(self).corners_tallied(),
            final(self).board.size == old(self).board.size,
            final(self).board.start == old(self).board.start,
            final(self).board.win == old(self).board.win,
            final(self).board.loose == old(self).board.loose,
            old(self).moves@.len() <= final(self).moves@.len() <= old(self).moves@.len() + iterations,
            final(self).moves@.subrange(0, old(self).moves@.len() as int) == old(self).moves@,
            done <==> final(self).moves@.len() == old(self).moves@.len() + iterations,
            forall|i: int|
                old(self).moves@.len() <= i < final(self).moves@.len() ==> #[trigger] final(self).moves@[i] >= 1,
            final(self).stats.wins >= old(self).stats.wins,
            final(self).stats.looses >= old(self).stats.looses,
            final(self).stats.wins + final(self).stats.looses == old(self).stats.wins + old(self).stats.looses
                + final(self).moves@.len() - old(self).moves@.len(),
            done ==> final(self).board.total_visits() == old(self).board.total_visits() + seq_total(
                final(self).moves@,
            ) - seq_total(old(self).moves@),
            !done ==> final(self).board.total_visits() >= old(self).board.total_visits() + seq_total(
                final(self).moves@,
            ) - seq_total(old(self).moves@),
            done && iterations > 0 ==> final(self).board.ends_game(final(self).board.current),
            old(self).consistent() && done ==> final(self).consistent(),
            exists|walks: Seq<Seq<Point>>, rest: Seq<Point>|
                #![trigger final(self).played(*old(self), walks, rest)]
                {
                    &&& final(self).played(*old(self), walks, rest)
                    &&& done ==> rest.len() == 0
                    &&& done && iterations > 0 ==> final(self).board.current == walks.last().last()
                    &&& !done ==> final(self).board.game_report(rest, None)
                    &&& !done ==> final(self).board.current == walk_end(final(self).board.start, rest)
                },
    {
        let ghost before = *self;
        let ghost mut walks: Seq<Seq<Point>> = seq![];
        proof {
            assert(self.moves@.subrange(0, self.moves@.len() as int) =~= self.moves@);
            assert(self.played(before, walks, seq![]));
        }
        for i in 0..iterations
            invariant
                before == *old(self),
                i == 0 ==> *self == before,
                iterations > 0 ==> self.playable(),
                before.playable() ==> self.playable(),
                before.corners_tallied() ==> self.corners_tallied(),
                i > 0 ==> self.board.current == walks.last().last(),
                self.board.size == before.board.size,
                self.board.start == before.board.start,
                self.board.win == before.board.win,
                self.board.loose == before.board.loose,
                self.moves@.len() == before.moves@.len() + i,
                self.moves@.subrange(0, before.moves@.len() as int) == before.moves@,
                forall|j: int|
                    before.moves@.len() <= j < self.moves@.len() ==> #[trigger] self.moves@[j] >= 1,
                self.stats.wins >= before.stats.wins,
                self.stats.looses >= before.stats.looses,
                self.stats.wins + self.stats.looses == before.stats.wins + before.stats.looses + i,
                before.stats.wins + iterations <= u64::MAX,
                before.stats.looses + iterations <= u64::MAX,
                self.board.total_visits() == before.board.total_visits() + seq_total(self.moves@) - seq_total(
                    before.moves@,
                ),
                i > 0 ==> self.board.ends_game(self.board.current),
                walks.len() == i,
                self.played(before, walks, seq![]),
        {
            let ghost prev = *self;
            let r = self.board.play_game();
            let ghost walk = choose|w: Seq<Point>|
                #![trigger self.board.walked(prev.board, w)]
                self.board.walked(prev.board, w) && self.board.game_report(w, r);
            match r {
                Some((won, n)) => {
                    if won {
                        self.stats.wins = self.stats.wins + 1;
                    } else {
                        self.stats.looses = self.stats.looses + 1;
                    }
                    self.moves.push(n);
                    assert(self.moves@.drop_last() == prev.moves@);
                    assert(self.moves@.subrange(0, before.moves@.len() as int) =~= before.moves@) by {
                        assert(prev.moves@.subrange(0, before.moves@.len() as int) == before.moves@);
                    }
                    proof {
                        lemma_played_one_more(before, prev, *self, walks, walk, won);
                        if before.corners_tallied() {
                            lemma_finished_game_corners(prev, *self, walk, won);
                        }
                        walks = walks.push(walk);
                    }
                },
                None => {
                    proof {
                        lemma_played_unfinished(before, prev, *self, walks, walk);
                        if before.corners_tallied() {
                            lemma_unfinished_game_corners(prev, *self, walk);
                        }
                    }
                    return false;
                },
            }
        }
        true
    }
}

} // verus!
