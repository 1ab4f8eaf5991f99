use vstd::prelude::*;

use crate::knight::{valid_moves, Point};

verus! {

/// `walk` is a run of legal moves on a `size` x `size` board, each from the
/// square the one before it reached, the first from `from`.
pub open spec fn is_walk(size: int, from: Point, walk: Seq<Point>) -> bool {
    forall|i: int| 0 <= i < walk.len() ==> #[trigger] legal_step(size, from, walk, i)
}

/// Move `i` of `walk` is a legal move from the square that the walk,
/// started on `from`, reached before it.
pub open spec fn legal_step(size: int, from: Point, walk: Seq<Point>, i: int) -> bool {
    valid_moves(size, if i == 0 { from } else { walk[i - 1] }).contains(walk[i])
}

/// The square a walk from `from` ends on.
pub open spec fn walk_end(from: Point, walk: Seq<Point>) -> Point {
    if walk.len() == 0 {
        from
    } else {
        walk.last()
    }
}

/// How many times `walk` lands on square `(x, y)`.
pub open spec fn visits(walk: Seq<Point>, x: int, y: int) -> int
    decreases walk.len(),
{
    if walk.len() == 0 {
        0
    } else {
        visits(walk.drop_last(), x, y) + (if walk.last().x == x && walk.last().y == y {
            1int
        } else {
            0int
        })
    }
}

/// Landing once more on `p` adds one visit to `p` and none elsewhere.
pub(crate) proof fn lemma_visits_push(walk: Seq<Point>, p: Point, x: int, y: int)
    ensures
        visits(walk.push(p), x, y) == visits(walk, x, y) + (if p.x == x && p.y == y { 1int } else { 0int }),
{
    assert(walk.push(p).drop_last() =~= walk);
}

/// A walk that never lands on `p` counts no visit to it.
pub proof fn lemma_visits_none(walk: Seq<Point>, p: Point)
    requires
        forall|i: int| 0 <= i < walk.len() ==> #[trigger] walk[i] != p,
    ensures
        visits(walk, p.x as int, p.y as int) == 0,
    decreases walk.len(),
{
    if walk.len() > 0 {
        let w = walk.drop_last();
        assert forall|i: int| 0 <= i < w.len() implies #[trigger] w[i] != p by {
            assert(w[i] == walk[i]);
        }
        lemma_visits_none(w, p);
    }
}

/// A walk that lands on `p` at most with its last move counts one visit to
/// `p` when it ends there and none otherwise.
pub proof fn lemma_visits_last(walk: Seq<Point>, p: Point)
    requires
        walk.len() >= 1,
        forall|i: int| 0 <= i < walk.len() - 1 ==> #[trigger] walk[i] != p,
    ensures
        visits(walk, p.x as int, p.y as int) == (if walk.last() == p { 1int } else { 0int }),
{
    let w = walk.drop_last();
    assert forall|i: int| 0 <= i < w.len() implies #[trigger] w[i] != p by {
        assert(w[i] == walk[i]);
    }
    lemma_visits_none(w, p);
}

/// The sum of the counts in `row`.
pub open spec fn row_total(row: Seq<u64>) -> int
    decreases row.len(),
{
    if row.len() == 0 {
        0
    } else {
        row_total(row.drop_last()) + row.last()
    }
}

/// The sum of the counts in all of `rows`.
pub open spec fn grid_total(rows: Seq<Seq<u64>>) -> int
    decreases rows.len(),
{
    if rows.len() == 0 {
        0
    } else {
        grid_total(rows.drop_last()) + row_total(rows.last())
    }
}

/// Raising one count of a row by one raises its sum by one.
proof fn lemma_row_bump(a: Seq<u64>, b: Seq<u64>, y: int)
    requires
        a.len() == b.len(),
        0 <= y < a.len(),
        forall|j: int| 0 <= j < a.len() ==> #[trigger] b[j] == a[j] + (if j == y { 1int } else { 0int }),
    ensures
        row_total(b) == row_total(a) + 1,
    decreases a.len(),
{
    if y == a.len() - 1 {
        assert(a.drop_last() =~= b.drop_last());
    } else {
        lemma_row_bump(a.drop_last(), b.drop_last(), y);
    }
}

/// Raising one count of a grid by one raises its sum by one.
pub(crate) proof fn lemma_grid_bump(a: Seq<Seq<u64>>, b: Seq<Seq<u64>>, x: int, y: int)
    requires
        a.len() == b.len(),
        0 <= x < a.len(),
        0 <= y < a[x].len(),
        forall|i: int| 0 <= i < a.len() ==> #[trigger] b[i].len() == a[i].len(),
        forall|i: int, j: int|
            0 <= i < a.len() && 0 <= j < a[i].len() ==> #[trigger] b[i][j] == a[i][j] + (if i == x && j == y {
                1int
            } else {
                0int
            }),
    ensures
        grid_total(b) == grid_total(a) + 1,
    decreases a.len(),
{
    let n = a.len() - 1;
    if x == n {
        assert(a.drop_last() =~~= b.drop_last()) by {
            assert forall|i: int| 0 <= i < n implies a.drop_last()[i] =~= b.drop_last()[i] by {
                assert forall|j: int| 0 <= j < a[i].len() implies a[i][j] == b[i][j] by {
                    assert(b[i][j] == a[i][j] + 0);
                }
            }
        }
        assert forall|j: int| 0 <= j < a[n].len() implies #[trigger] b[n][j] == a[n][j] + (if j == y {
            1int
        } else {
            0int
        }) by {
            assert(b[n][j] == a[n][j] + (if n == x && j == y { 1int } else { 0int }));
        }
        lemma_row_bump(a[n], b[n], y);
    } else {
        assert(a[n] =~= b[n]) by {
            assert forall|j: int| 0 <= j < a[n].len() implies a[n][j] == b[n][j] by {
                assert(b[n][j] == a[n][j] + (if n == x && j == y { 1int } else { 0int }));
            }
        }
        let a2 = a.drop_last();
        let b2 = b.drop_last();
        assert forall|i: int, j: int|
            0 <= i < a2.len() && 0 <= j < a2[i].len() implies #[trigger] b2[i][j] == a2[i][j] + (if i == x
            && j == y {
            1int
        } else {
            0int
        }) by {
            assert(b[i][j] == a[i][j] + (if i == x && j == y { 1int } else { 0int }));
        }
        lemma_grid_bump(a2, b2, x, y);
    }
}

/// A row of zeros sums to zero.
proof fn lemma_zero_row(r: Seq<u64>)
    requires
        forall|j: int| 0 <= j < r.len() ==> #[trigger] r[j] == 0,
    ensures
        row_total(r) == 0,
    decreases r.len(),
{
    if r.len() > 0 {
        lemma_zero_row(r.drop_last());
    }
}

/// A grid of zeros sums to zero.
pub(crate) proof fn lemma_zero_grid(g: Seq<Seq<u64>>)
    requires
        forall|i: int, j: int| 0 <= i < g.len() && 0 <= j < g[i].len() ==> #[trigger] g[i][j] == 0,
    ensures
        grid_total(g) == 0,
    decreases g.len(),
{
    if g.len() > 0 {
        let n = g.len() - 1;
        assert forall|j: int| 0 <= j < g[n].len() implies #[trigger] g[n][j] == 0 by {
            assert(g[n][j] == 0);
        }
        lemma_zero_row(g[n]);
        let g2 = g.drop_last();
        assert forall|i: int, j: int| 0 <= i < g2.len() && 0 <= j < g2[i].len() implies #[trigger] g2[i][j] == 0 by {
            assert(g[i][j] == 0);
        }
        lemma_zero_grid(g2);
    }
}

} // verus!
