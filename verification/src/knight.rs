use vstd::prelude::*;

verus! {

/// A square of the board; `x` grows to the right and `y` grows upwards.
#[derive(Clone, Copy, Debug, PartialEq, Eq, Structural)]
pub struct Point {
    pub x: i32,
    pub y: i32,
}

/// The four groups of knight jumps, two jumps each.
#[derive(Debug, PartialEq, Eq, Clone, Copy, Structural)]
pub enum Direction {
    NORTH,
    EAST,
    SOUTH,
    WEST,
}

/// The board size used when none is asked for.
pub const BOARD_SIZE: i32 = 8;

/// `p` lies on a `size` x `size` board.
pub open spec fn on_board(size: int, p: Point) -> bool {
    0 <= p.x < size && 0 <= p.y < size
}

/// `on_board` as a predicate on points.
pub open spec fn on_board_pred(size: int) -> spec_fn(Point) -> bool {
    |q: Point| on_board(size, q)
}

/// Every knight jump from `p` can be computed in `i32` without overflow.
pub open spec fn jumps_fit(p: Point) -> bool {
    -0x7fff_fffe <= p.x <= 0x7fff_fffd && -0x7fff_fffe <= p.y <= 0x7fff_fffd
}

/// The point `p` moved by `(dx, dy)`.
pub open spec fn shifted(p: Point, dx: int, dy: int) -> Point {
    Point { x: (p.x + dx) as i32, y: (p.y + dy) as i32 }
}

/// The eight knight jumps from `p`, grouped by direction in the order
/// north, east, south, west.
pub open spec fn knight_jumps(p: Point) -> Seq<Point> {
    seq![
        shifted(p, -1, 2), shifted(p, 1, 2),
        shifted(p, 2, -1), shifted(p, 2, 1),
        shifted(p, -1, -2), shifted(p, 1, -2),
        shifted(p, -2, 1), shifted(p, -2, -1),
    ]
}

/// The legal moves from `p` on a `size` x `size` board, in the order in
/// which `knight_jumps` lists them.
pub open spec fn valid_moves(size: int, p: Point) -> Seq<Point> {
    knight_jumps(p).filter(on_board_pred(size))
}

/// `q` is one knight jump away from `p`.
pub open spec fn is_knight_jump(p: Point, q: Point) -> bool {
    let dx = q.x - p.x;
    let dy = q.y - p.y;
    ||| (dx == 1 || dx == -1) && (dy == 2 || dy == -2)
    ||| (dx == 2 || dx == -2) && (dy == 1 || dy == -1)
}

/// On a board of this size every square can be handed to `knight_jumps`
/// without overflow.
pub open spec fn size_fits(size: int) -> bool {
    0 <= size <= 0x7fff_fffe
}

/// From `p` the knight can always go on: `p` is on the board, and either the
/// board is at least 4 x 4, or it is 3 x 3 and `p` is not its centre.
pub open spec fn keeps_moving(size: int, p: Point) -> bool {
    &&& on_board(size, p)
    &&& size >= 4 || (size == 3 && !(p.x == 1 && p.y == 1))
}

/// The legal moves from `p` are exactly the knight jumps from `p` that
/// land on the board.
pub proof fn lemma_valid_move_iff(size: int, p: Point, q: Point)
    requires
        jumps_fit(p),
    ensures
        valid_moves(size, p).contains(q) <==> (on_board(size, q) && is_knight_jump(p, q)),
{
    let s = knight_jumps(p);
    let pred = on_board_pred(size);
    if valid_moves(size, p).contains(q) {
        let j = choose|j: int| 0 <= j < s.filter(pred).len() && s.filter(pred)[j] == q;
        s.lemma_filter_pred(pred, j);
        s.lemma_filter_contains_rev(pred, q);
        let k = choose|k: int| 0 <= k < s.len() && s[k] == q;
        assert(is_knight_jump(p, q));
    }
    if on_board(size, q) && is_knight_jump(p, q) {
        let dx = q.x - p.x;
        let dy = q.y - p.y;
        let k: int = if dx == -1 && dy == 2 {
            0
        } else if dx == 1 && dy == 2 {
            1
        } else if dx == 2 && dy == -1 {
            2
        } else if dx == 2 && dy == 1 {
            3
        } else if dx == -1 && dy == -2 {
            4
        } else if dx == 1 && dy == -2 {
            5
        } else if dx == -2 && dy == 1 {
            6
        } else {
            7
        };
        assert(s[k] == q);
        s.lemma_filter_contains(pred, k);
    }
}

/// A knight that can always go on has a legal move, and each of its legal
/// moves leads to a square from which it can again go on: on a board of at
/// least 4 x 4 every square has a move, and on a 3 x 3 board the centre,
/// which has none, cannot be reached from any other square.
pub proof fn lemma_keeps_moving(size: int, p: Point)
    requires
        size_fits(size),
        keeps_moving(size, p),
    ensures
        jumps_fit(p),
        valid_moves(size, p).len() > 0,
        forall|q: Point| #[trigger] valid_moves(size, p).contains(q) ==> keeps_moving(size, q),
{
    let q = Point {
        x: if p.x + 2 < size { (p.x + 2) as i32 } else { (p.x - 2) as i32 },
        y: if p.y + 1 < size { (p.y + 1) as i32 } else { (p.y - 1) as i32 },
    };
    let r = Point {
        x: if p.x + 1 < size { (p.x + 1) as i32 } else { (p.x - 1) as i32 },
        y: if p.y + 2 < size { (p.y + 2) as i32 } else { (p.y - 2) as i32 },
    };
    if size >= 4 || p.x != 1 {
        lemma_valid_move_iff(size, p, q);
    } else {
        lemma_valid_move_iff(size, p, r);
    }
    assert forall|t: Point| #[trigger] valid_moves(size, p).contains(t) implies keeps_moving(size, t) by {
        lemma_valid_move_iff(size, p, t);
    }
}

/// Filtering a sequence without repeated elements gives one without
/// repeated elements.
proof fn lemma_filter_no_duplicates(s: Seq<Point>, pred: spec_fn(Point) -> bool)
    requires
        s.no_duplicates(),
    ensures
        s.filter(pred).no_duplicates(),
    decreases s.len(),
{
    reveal_with_fuel(Seq::filter, 1);
    if s.len() > 0 {
        let d = s.drop_last();
        assert(d.no_duplicates());
        lemma_filter_no_duplicates(d, pred);
        if pred(s.last()) {
            if d.filter(pred).contains(s.last()) {
                d.lemma_filter_contains_rev(pred, s.last());
                let k = choose|k: int| 0 <= k < d.len() && d[k] == s.last();
                assert(s[k] == s[s.len() - 1]);
            }
            let f = d.filter(pred);
            let g = f.push(s.last());
            assert forall|i: int, j: int| 0 <= i < g.len() && 0 <= j < g.len() && i != j implies g[i] != g[j] by {
                if i < f.len() && j < f.len() {
                    assert(g[i] == f[i] && g[j] == f[j]);
                } else if i < f.len() {
                    assert(f.contains(g[i]));
                } else {
                    assert(f.contains(g[j]));
                }
            }
        }
    }
}

/// The legal moves from a square are all different: the list from which a
/// move is drawn holds each legal move exactly once, so a uniform draw from
/// it gives each legal move the same chance.
pub proof fn lemma_valid_moves_distinct(size: int, p: Point)
    requires
        jumps_fit(p),
    ensures
        valid_moves(size, p).no_duplicates(),
        valid_moves(size, p).len() <= 8,
        forall|q: Point|
            #[trigger] valid_moves(size, p).contains(q) ==> exists|i: int|
                0 <= i < valid_moves(size, p).len() && valid_moves(size, p)[i] == q && forall|j: int|
                    0 <= j < valid_moves(size, p).len() && valid_moves(size, p)[j] == q ==> j == i,
{
    let s = knight_jumps(p);
    assert(s.no_duplicates());
    lemma_filter_no_duplicates(s, on_board_pred(size));
    s.lemma_filter_len(on_board_pred(size));
    let v = valid_moves(size, p);
    assert forall|q: Point| #[trigger] v.contains(q) implies exists|i: int|
        0 <= i < v.len() && v[i] == q && forall|j: int| 0 <= j < v.len() && v[j] == q ==> j == i by {
        let i = choose|i: int| 0 <= i < v.len() && v[i] == q;
        assert(forall|j: int| 0 <= j < v.len() && v[j] == q ==> j == i);
    }
}

/// Keeping the first `k + 1` elements of `s` and filtering adds `s[k]` to
/// the filtered first `k` exactly when it passes.
pub(crate) proof fn lemma_filter_take_step(s: Seq<Point>, size: int, k: int)
    requires
        0 <= k < s.len(),
    ensures
        s.take(k + 1).filter(on_board_pred(size)) == (if on_board(size, s[k]) {
            s.take(k).filter(on_board_pred(size)).push(s[k])
        } else {
            s.take(k).filter(on_board_pred(size))
        }),
{
    reveal_with_fuel(Seq::filter, 1);
    assert(s.take(k + 1).drop_last() =~= s.take(k));
}

} // verus!
