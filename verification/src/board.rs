use rand::seq::IndexedRandom;
use vstd::prelude::*;

use crate::knight::{
    jumps_fit, keeps_moving, knight_jumps, lemma_filter_take_step, lemma_keeps_moving, on_board,
    on_board_pred, size_fits, valid_moves, Direction, Point,
};
use crate::walk::{
    grid_total, is_walk, lemma_grid_bump, lemma_visits_push, lemma_zero_grid, legal_step, visits,
    walk_end,
};

verus! {

/// Where a game stands: the knight is on the winning square, on the losing
/// square, or elsewhere.
#[derive(Debug, PartialEq, Eq, Clone, Copy, Structural)]
pub enum Status {
    Ongoing,
    Won,
    Lost,
}

/// What a square of the board shows: the knight, else the winning square,
/// else the losing square, else the start square, else nothing.
#[derive(Debug, PartialEq, Eq, Clone, Copy, Structural)]
pub enum Cell {
    Knight,
    Win,
    Lose,
    Start,
    Empty,
}

/// A walk followed by one more legal landing is a walk one move longer.
proof fn lemma_walk_extend(before: Board, prev: Board, cur: Board, walk: Seq<Point>, p: Point)
    requires
        prev.walked(before, walk),
        cur.is_landing(prev, p),
        valid_moves(prev.size as int, prev.current).contains(p),
    ensures
        cur.walked(before, walk.push(p)),
{
    assert forall|x: int, y: int|
        0 <= x < cur.size && 0 <= y < cur.size implies #[trigger] cur.count_at(x, y) == before.count_at(x, y)
        + visits(walk.push(p), x, y) by {
        lemma_visits_push(walk, p, x, y);
        assert(prev.count_at(x, y) == before.count_at(x, y) + visits(walk, x, y));
    }
    let w2 = walk.push(p);
    assert forall|i: int| 0 <= i < w2.len() implies #[trigger] legal_step(cur.size as int, cur.start, w2, i) by {
        if i < walk.len() {
            assert(legal_step(prev.size as int, prev.start, walk, i));
            assert(w2[i] == walk[i]);
            if i > 0 {
                assert(w2[i - 1] == walk[i - 1]);
            }
        }
    }
}

/// An `n` x `n` grid of visit counts, all zero.
pub(crate) fn zero_counts(n: usize) -> (counts: Vec<Vec<u64>>)
    ensures
        counts@.len() == n,
        forall|j: int| 0 <= j < n ==> #[trigger] counts@[j]@.len() == n,
        forall|j: int, k: int| 0 <= j < n && 0 <= k < n ==> #[trigger] counts@[j]@[k] == 0,
{
    let mut counts: Vec<Vec<u64>> = Vec::new();
    for i in 0..n
        invariant
            counts@.len() == i,
            forall|j: int| 0 <= j < i ==> #[trigger] counts@[j]@.len() == n,
            forall|j: int, k: int| 0 <= j < i && 0 <= k < n ==> #[trigger] counts@[j]@[k] == 0,
    {
        let row: Vec<u64> = vec![0u64; n];
        counts.push(row);
    }
    counts
}

/// The knight's board: its size, the start, winning and losing squares,
/// where the knight stands, and how often the knight has landed on each
/// square (`visit_counts[x][y]`).
#[derive(Debug)]
pub struct Board {
    pub size: i32,
    pub start: Point,
    pub current: Point,
    pub win: Point,
    pub loose: Point,
    pub visit_counts: Vec<Vec<u64>>,
}

/// `rand::rngs::ThreadRng`, the handle to a thread-local random number
/// generator; nothing inside it is read here.
#[verifier::external_type_specification]
#[verifier::external_body]
pub struct ExThreadRng(rand::rngs::ThreadRng);

/// `rand::rng()`: a handle to the thread-local generator. Nothing is stated
/// of it; the first call on a thread panics if the operating system's
/// random source cannot seed the generator, which is left unsaid here.
#[verifier::external_body]
fn thread_rng() -> rand::rngs::ThreadRng {
    rand::rng()
}

/// `IndexedRandom::choose` of `rand` on `moves`, drawing from `rng`: `None`
/// exactly when `moves` is empty, and otherwise one of its elements. Which
/// element is left to chance and is not stated. The draw panics if the
/// generator's periodic reseeding from the operating system's random source
/// fails; that case is left unsaid here.
#[verifier::external_body]
fn choose_move(moves: &Vec<Point>, rng: &mut rand::rngs::ThreadRng) -> (r: Option<Point>)
    ensures
        r is None <==> moves@.len() == 0,
        r matches Some(p) ==> moves@.contains(p),
{
    moves.choose(rng).copied()
}

impl Board {
    /// How often the knight has landed on square `(x, y)`.
    pub open spec fn count_at(&self, x: int, y: int) -> u64 {
        self.visit_counts@[x]@[y]
    }

    /// The visit counts as a grid of plain values.
    pub open spec fn grid(&self) -> Seq<Seq<u64>> {
        self.visit_counts@.map_values(|r: Vec<u64>| r@)
    }

    /// The sum of all visit counts: how many landings have been counted.
    pub open spec fn total_visits(&self) -> int {
        grid_total(self.grid())
    }

    /// The visit counts form a `size` x `size` grid.
    pub open spec fn wf(&self) -> bool {
        &&& 0 <= self.size
        &&& self.visit_counts@.len() == self.size
        &&& forall|i: int| 0 <= i < self.size ==> #[trigger] self.visit_counts@[i]@.len() == self.size
    }

    /// Every visit count is zero.
    pub open spec fn counts_cleared(&self) -> bool {
        forall|x: int, y: int|
            0 <= x < self.size && 0 <= y < self.size ==> #[trigger] self.count_at(x, y) == 0
    }

    /// A board with every count at zero has counted no landing.
    pub proof fn lemma_cleared_total(&self)
        requires
            self.wf(),
            self.counts_cleared(),
        ensures
            self.total_visits() == 0,
    {
        let g = self.grid();
        assert forall|i: int, j: int| 0 <= i < g.len() && 0 <= j < g[i].len() implies #[trigger] g[i][j] == 0 by {
            assert(self.count_at(i, j) == 0);
        }
        lemma_zero_grid(g);
    }

    /// `self` is `before` with the knight moved to `p` and the visit count
    /// of `p` raised by one.
    pub open spec fn is_landing(&self, before: Board, p: Point) -> bool {
        &&& self.wf()
        &&& self.size == before.size
        &&& self.start == before.start
        &&& self.win == before.win
        &&& self.loose == before.loose
        &&& self.current == p
        &&& forall|x: int, y: int|
            0 <= x < self.size && 0 <= y < self.size ==> #[trigger] self.count_at(x, y) == before.count_at(x, y)
                + (if x == p.x && y == p.y { 1int } else { 0int })
        &&& self.total_visits() == before.total_visits() + 1
    }

    /// Where the game stands with the knight on its current square: the
    /// winning square is checked first.
    pub open spec fn status_of(&self) -> Status {
        if self.current == self.win {
            Status::Won
        } else if self.current == self.loose {
            Status::Lost
        } else {
            Status::Ongoing
        }
    }

    /// `p` ends a game on this board.
    pub open spec fn ends_game(&self, p: Point) -> bool {
        p == self.win || p == self.loose
    }

    /// `self` is `before` after the knight, put on the start square, made
    /// the moves of `walk`, each visit counted.
    pub open spec fn walked(&self, before: Board, walk: Seq<Point>) -> bool {
        &&& self.wf()
        &&& self.size == before.size
        &&& self.start == before.start
        &&& self.win == before.win
        &&& self.loose == before.loose
        &&& is_walk(self.size as int, self.start, walk)
        &&& self.current == walk_end(self.start, walk)
        &&& forall|x: int, y: int|
            0 <= x < self.size && 0 <= y < self.size ==> #[trigger] self.count_at(x, y) == before.count_at(x, y)
                + visits(walk, x, y)
        &&& self.total_visits() == before.total_visits() + walk.len()
    }

    /// `walk` is one whole game on this board: legal moves from the start
    /// square, of which the last, and no other, lands on the winning or the
    /// losing square.
    pub open spec fn is_game(&self, walk: Seq<Point>) -> bool {
        &&& is_walk(self.size as int, self.start, walk)
        &&& walk.len() >= 1
        &&& forall|i: int| 0 <= i < walk.len() - 1 ==> !self.ends_game(#[trigger] walk[i])
        &&& self.ends_game(walk.last())
    }

    /// What `play_game` reports after the knight walked `walk`: `Some((won,
    /// n))` when the walk of `n` moves ended the game on its last move and
    /// not before, `won` telling whether that was the winning square; `None`
    /// when no move of the walk ended the game and the walk could not go on,
    /// because it reached `u64::MAX` moves or because a square that the
    /// knight could move to next has its visit count at `u64::MAX`.
    pub open spec fn game_report(&self, walk: Seq<Point>, r: Option<(bool, u64)>) -> bool {
        match r {
            Some((won, n)) => {
                &&& n == walk.len()
                &&& n >= 1
                &&& forall|i: int| 0 <= i < n - 1 ==> !self.ends_game(#[trigger] walk[i])
                &&& self.ends_game(walk.last())
                &&& won == (walk.last() == self.win)
            },
            None => {
                &&& forall|i: int| 0 <= i < walk.len() ==> !self.ends_game(#[trigger] walk[i])
                &&& walk.len() == u64::MAX || self.next_count_full()
            },
        }
    }

    /// Some square that the knight could move to next has its visit count
    /// at `u64::MAX`.
    pub open spec fn next_count_full(&self) -> bool {
        let moves = valid_moves(self.size as int, self.current);
        exists|i: int| 0 <= i < moves.len() && #[trigger] self.count_at(moves[i].x as int, moves[i].y as int) == u64::MAX
    }

    /// From the current square there is a legal move, and no square that
    /// the knight could move to has its visit count at `u64::MAX`.
    pub open spec fn move_possible(&self) -> bool {
        let moves = valid_moves(self.size as int, self.current);
        &&& moves.len() > 0
        &&& forall|i: int| 0 <= i < moves.len() ==> #[trigger] self.count_at(moves[i].x as int, moves[i].y as int) < u64::MAX
    }

    /// A `size` x `size` board with the knight on `start` and no visits
    /// counted yet.
    pub fn new(size: i32, start: Point, win: Point, loose: Point) -> (b: Self)
        requires
            0 <= size,
        ensures
            b.wf(),
            b.size == size,
            b.start == start,
            b.current == start,
            b.win == win,
            b.loose == loose,
            b.counts_cleared(),
            b.total_visits() == 0,
    {
        let counts = zero_counts(size as usize);
        let b = Board { size, start, current: start, win, loose, visit_counts: counts };
        proof {
            b.lemma_cleared_total();
        }
        b
    }

    /// The largest visit count, or 1 where that is smaller: the scale of the
    /// heatmap.
    pub fn max_visit_count(&self) -> (m: u64)
        ensures
            m >= 1,
            forall|x: int, y: int|
                0 <= x < self.visit_counts@.len() && 0 <= y < self.visit_counts@[x]@.len()
                    ==> #[trigger] self.count_at(x, y) <= m,
            m == 1 || exists|x: int, y: int|
                0 <= x < self.visit_counts@.len() && 0 <= y < self.visit_counts@[x]@.len()
                    && #[trigger] self.count_at(x, y) == m,
    {
        let mut m: u64 = 1;
        for i in 0..self.visit_counts.len()
            invariant
                m >= 1,
                forall|x: int, y: int|
                    0 <= x < i && 0 <= y < self.visit_counts@[x]@.len() ==> #[trigger] self.count_at(x, y) <= m,
                m == 1 || exists|x: int, y: int|
                    0 <= x < self.visit_counts@.len() && 0 <= y < self.visit_counts@[x]@.len()
                        && #[trigger] self.count_at(x, y) == m,
        {
            let row = &self.visit_counts[i];
            for j in 0..row.len()
                invariant
                    0 <= i < self.visit_counts@.len(),
                    row == self.visit_counts@[i as int],
                    m >= 1,
                    forall|x: int, y: int|
                        0 <= x < i && 0 <= y < self.visit_counts@[x]@.len() ==> #[trigger] self.count_at(x, y) <= m,
                    forall|y: int| 0 <= y < j ==> #[trigger] self.count_at(i as int, y) <= m,
                    m == 1 || exists|x: int, y: int|
                        0 <= x < self.visit_counts@.len() && 0 <= y < self.visit_counts@[x]@.len()
                            && #[trigger] self.count_at(x, y) == m,
            {
                if row[j] > m {
                    m = row[j];
                    assert(self.count_at(i as int, j as int) == m);
                }
            }
        }
        m
    }

    /// What square `(col, row)` shows: see `Cell`.
    pub fn cell_at(&self, col: i32, row: i32) -> (c: Cell)
        ensures
            c == (if self.current == (Point { x: col, y: row }) {
                Cell::Knight
            } else if self.win == (Point { x: col, y: row }) {
                Cell::Win
            } else if self.loose == (Point { x: col, y: row }) {
                Cell::Lose
            } else if self.start == (Point { x: col, y: row }) {
                Cell::Start
            } else {
                Cell::Empty
            }),
    {
        let p = Point { x: col, y: row };
        if p == self.current {
            Cell::Knight
        } else if p == self.win {
            Cell::Win
        } else if p == self.loose {
            Cell::Lose
        } else if p == self.start {
            Cell::Start
        } else {
            Cell::Empty
        }
    }

    /// Puts the knight back on the start square; the visit counts stay.
    pub fn reset(&mut self)
        ensures
            *final(self) == (Board { current: old(self).start, ..*old(self) }),
    {
        self.current = self.start;
    }

    /// `p` lies on this board.
    pub fn is_valid_point(&self, p: &Point) -> (r: bool)
        ensures
            r == on_board(self.size as int, *p),
    {
        p.x >= 0 && p.y >= 0 && p.x < self.size && p.y < self.size
    }

    /// The legal knight moves from the current square: the jumps of the
    /// north, east, south and west groups, in that order, that stay on the
    /// board.
    pub fn get_valid_moves(&self) -> (v: Vec<Point>)
        requires
            jumps_fit(self.current),
        ensures
            v@ == valid_moves(self.size as int, self.current),
    {
        let mut v: Vec<Point> = Vec::new();
        let variants: [Direction; 4] = [
            Direction::NORTH,
            Direction::EAST,
            Direction::SOUTH,
            Direction::WEST,
        ];
        let ghost jumps = knight_jumps(self.current);
        let ghost size = self.size as int;
        let cur = self.current;
        for i in 0..4
            invariant
                cur == self.current,
                jumps == knight_jumps(cur),
                size == self.size,
                jumps_fit(cur),
                variants@ == seq![Direction::NORTH, Direction::EAST, Direction::SOUTH, Direction::WEST],
                v@ == jumps.take(2 * i).filter(on_board_pred(size)),
        {
            let (p, pp) = match variants[i] {
                Direction::NORTH => (
                    Point { x: cur.x - 1, y: cur.y + 2 },
                    Point { x: cur.x + 1, y: cur.y + 2 },
                ),
                Direction::EAST => (
                    Point { x: cur.x + 2, y: cur.y - 1 },
                    Point { x: cur.x + 2, y: cur.y + 1 },
                ),
                Direction::SOUTH => (
                    Point { x: cur.x - 1, y: cur.y - 2 },
                    Point { x: cur.x + 1, y: cur.y - 2 },
                ),
                Direction::WEST => (
                    Point { x: cur.x - 2, y: cur.y + 1 },
                    Point { x: cur.x - 2, y: cur.y - 1 },
                ),
            };
            assert(p == jumps[2 * i] && pp == jumps[2 * i + 1]);
            proof {
                lemma_filter_take_step(jumps, size, 2 * i);
                lemma_filter_take_step(jumps, size, 2 * i + 1);
            }
            if self.is_valid_point(&p) {
                v.push(p);
            }
            if self.is_valid_point(&pp) {
                v.push(pp);
            }
        }
        assert(jumps.take(8) =~= jumps);
        v
    }

    /// Whether the knight can make its next move now: see `move_possible`.
    pub fn can_move(&self) -> (r: bool)
        requires
            self.wf(),
            jumps_fit(self.current),
        ensures
            r == self.move_possible(),
    {
        let moves = self.get_valid_moves();
        if moves.len() == 0 {
            return false;
        }
        let ghost size = self.size as int;
        for i in 0..moves.len()
            invariant
                self.wf(),
                size == self.size,
                moves@ == valid_moves(size, self.current),
                forall|j: int| 0 <= j < i ==> #[trigger] self.count_at(moves@[j].x as int, moves@[j].y as int) < u64::MAX,
        {
            let q = moves[i];
            proof {
                knight_jumps(self.current).lemma_filter_pred(on_board_pred(size), i as int);
            }
            if self.visit_counts[q.x as usize][q.y as usize] == u64::MAX {
                assert(self.count_at(moves@[i as int].x as int, moves@[i as int].y as int) == u64::MAX);
                return false;
            }
        }
        true
    }

    /// Where the game stands: see `status_of`.
    pub fn status(&self) -> (r: Status)
        ensures
            r == self.status_of(),
    {
        if self.current == self.win {
            Status::Won
        } else if self.current == self.loose {
            Status::Lost
        } else {
            Status::Ongoing
        }
    }

    /// Plays one game: puts the knight on the start square and moves it at
    /// random until it lands on the winning or the losing square. Gives the
    /// outcome and the number of moves, or `None` where a counter would
    /// pass `u64::MAX` (see `game_report`).
    pub fn play_game(&mut self) -> (r: Option<(bool, u64)>)
        requires
            old(self).wf(),
            size_fits(old(self).size as int),
            keeps_moving(old(self).size as int, old(self).start),
        ensures
            exists|walk: Seq<Point>|
                #![trigger final(self).walked(*old(self), walk)]
                final(self).walked(*old(self), walk) && final(self).game_report(walk, r),
    {
        let ghost before = *self;
        self.reset();
        let mut moves: u64 = 0;
        let ghost mut walk: Seq<Point> = seq![];
        assert(self.walked(before, walk));
        while moves < u64::MAX
            invariant
                before == *old(self),
                self.walked(before, walk),
                walk.len() == moves,
                size_fits(self.size as int),
                keeps_moving(self.size as int, self.current),
                forall|i: int| 0 <= i < walk.len() ==> !self.ends_game(#[trigger] walk[i]),
            decreases u64::MAX - moves,
        {
            proof {
                lemma_keeps_moving(self.size as int, self.current);
            }
            if !self.can_move() {
                assert(self.game_report(walk, None));
                return None;
            }
            let ghost prev = *self;
            self.next_move();
            moves += 1;
            proof {
                lemma_walk_extend(before, prev, *self, walk, self.current);
                walk = walk.push(self.current);
            }
            match self.status() {
                Status::Won => {
                    assert(self.game_report(walk, Some((true, moves))));
                    return Some((true, moves));
                },
                Status::Lost => {
                    assert(self.game_report(walk, Some((false, moves))));
                    return Some((false, moves));
                },
                Status::Ongoing => {},
            }
        }
        assert(self.game_report(walk, None));
        None
    }

    /// Moves the knight to `p` and counts the visit.
    pub fn land_on(&mut self, p: Point)
        requires
            old(self).wf(),
            on_board(old(self).size as int, p),
            old(self).count_at(p.x as int, p.y as int) < u64::MAX,
        ensures
            final(self).is_landing(*old(self), p),
    {
        self.current = p;
        let xi = p.x as usize;
        let yi = p.y as usize;
        let c = self.visit_counts[xi][yi];
        self.visit_counts[xi][yi] = c + 1;
        proof {
            assert forall|i: int| 0 <= i < self.size implies #[trigger] self.visit_counts@[i]@.len() == self.size by {
                if i != xi {
                    assert(self.visit_counts@[i] == old(self).visit_counts@[i]);
                }
            }
            let a = old(self).grid();
            let b = self.grid();
            assert forall|i: int| 0 <= i < a.len() implies #[trigger] b[i].len() == a[i].len() by {
                if i != xi {
                    assert(self.visit_counts@[i] == old(self).visit_counts@[i]);
                }
            }
            assert forall|i: int, j: int|
                0 <= i < a.len() && 0 <= j < a[i].len() implies #[trigger] b[i][j] == a[i][j] + (if i == xi && j
                == yi {
                1int
            } else {
                0int
            }) by {
                if i != xi {
                    assert(self.visit_counts@[i] == old(self).visit_counts@[i]);
                }
            }
            lemma_grid_bump(a, b, xi as int, yi as int);
        }
    }

    /// Moves the knight to one of its legal moves, picked at random, and
    /// counts the visit.
    pub fn next_move(&mut self)
        requires
            old(self).wf(),
            jumps_fit(old(self).current),
            old(self).move_possible(),
        ensures
            valid_moves(old(self).size as int, old(self).current).contains(final(self).current),
            final(self).is_landing(*old(self), final(self).current),
    {
        let mut rng = thread_rng();
        let valid_moves: Vec<Point> = self.get_valid_moves();
        let p = choose_move(&valid_moves, &mut rng);
        match p {
            Some(pp) => {
                proof {
                    let i = choose|i: int| 0 <= i < valid_moves@.len() && valid_moves@[i] == pp;
                    assert(self.count_at(valid_moves@[i].x as int, valid_moves@[i].y as int) < u64::MAX);
                    assert(valid_moves@[i] == knight_jumps(self.current).filter(on_board_pred(self.size as int))[i]);
                    knight_jumps(self.current).lemma_filter_pred(on_board_pred(self.size as int), i);
                }
                self.land_on(pp);
            },
            None => {},
        }
    }
}

} // verus!
