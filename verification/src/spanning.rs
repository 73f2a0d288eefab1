use vstd::prelude::*;

use crate::connect::{nbr, nbr_in};
use crate::maze::{
    lemma_lookup_placed, lemma_placed_walls, lemma_with_wall_shaped, wall_toward, Coord, Direction,
    MazeView,
};

verus! {

/// Number of walls taken down (`false` entries) in a row of walls.
pub open spec fn open_in_row(s: Seq<bool>) -> nat
    decreases s.len(),
{
    if s.len() == 0 {
        0
    } else {
        open_in_row(s.drop_last()) + if s.last() {
            0nat
        } else {
            1nat
        }
    }
}

/// Number of walls taken down in a grid of walls.
pub open spec fn open_in_grid(g: Seq<Seq<bool>>) -> nat
    decreases g.len(),
{
    if g.len() == 0 {
        0
    } else {
        open_in_grid(g.drop_last()) + open_in_row(g.last())
    }
}

impl MazeView {
    /// Number of walls taken down in the whole maze.
    pub open spec fn open_walls(self) -> nat {
        open_in_grid(self.hwalls) + open_in_grid(self.vwalls)
    }

    /// Every wall of the maze stands.
    pub open spec fn all_walls_standing(self) -> bool {
        &&& forall|r: int, c: int|
            0 <= r < self.hwalls.len() && 0 <= c < self.hwalls[r].len() ==> #[trigger] self.hwalls[r][c]
        &&& forall|c: int, r: int|
            0 <= c < self.vwalls.len() && 0 <= r < self.vwalls[c].len() ==> #[trigger] self.vwalls[c][r]
    }

    /// Every wall that is down lies between two cells of `v`: the horizontal wall `(r, c)`
    /// between cells `(r, c - 1)` and `(r, c)`, the vertical wall `(r, c)` between cells
    /// `(r - 1, c)` and `(r, c)`.
    pub open spec fn open_within(self, v: Set<Coord>) -> bool {
        &&& forall|r: int, c: int|
            0 <= r < self.height() && 0 <= c <= self.width() && !#[trigger] self.hwalls[r][c] ==> {
                &&& 1 <= c < self.width()
                &&& v.contains((r as usize, (c - 1) as usize))
                &&& v.contains((r as usize, c as usize))
            }
        &&& forall|c: int, r: int|
            0 <= c < self.width() && 0 <= r <= self.height() && !#[trigger] self.vwalls[c][r] ==> {
                &&& 1 <= r < self.height()
                &&& v.contains(((r - 1) as usize, c as usize))
                &&& v.contains((r as usize, c as usize))
            }
    }
}

proof fn lemma_row_open_one(s: Seq<bool>, i: int)
    requires
        0 <= i < s.len(),
        s[i],
    ensures
        open_in_row(s.update(i, false)) == open_in_row(s) + 1,
    decreases s.len(),
{
    let t = s.update(i, false);
    if i == s.len() - 1 {
        assert(t.drop_last() =~= s.drop_last());
    } else {
        assert(t.drop_last() =~= s.drop_last().update(i, false));
        lemma_row_open_one(s.drop_last(), i);
    }
}

proof fn lemma_row_all_standing(s: Seq<bool>)
    requires
        forall|i: int| 0 <= i < s.len() ==> #[trigger] s[i],
    ensures
        open_in_row(s) == 0,
    decreases s.len(),
{
    if s.len() > 0 {
        lemma_row_all_standing(s.drop_last());
    }
}

proof fn lemma_grid_update(g: Seq<Seq<bool>>, k: int, row: Seq<bool>)
    requires
        0 <= k < g.len(),
    ensures
        open_in_grid(g.update(k, row)) + open_in_row(g[k]) == open_in_grid(g) + open_in_row(row),
    decreases g.len(),
{
    let h = g.update(k, row);
    if k == g.len() - 1 {
        assert(h.drop_last() =~= g.drop_last());
    } else {
        assert(h.drop_last() =~= g.drop_last().update(k, row));
        lemma_grid_update(g.drop_last(), k, row);
    }
}

proof fn lemma_grid_all_standing(g: Seq<Seq<bool>>)
    requires
        forall|r: int, c: int| 0 <= r < g.len() && 0 <= c < g[r].len() ==> #[trigger] g[r][c],
    ensures
        open_in_grid(g) == 0,
    decreases g.len(),
{
    if g.len() > 0 {
        lemma_grid_all_standing(g.drop_last());
        assert forall|c: int| 0 <= c < g.last().len() implies #[trigger] g.last()[c] by {
            assert(g[g.len() - 1][c]);
        }
        lemma_row_all_standing(g.last());
    }
}

/// A maze whose walls all stand has none taken down.
pub proof fn lemma_all_standing_none_open(m: MazeView)
    requires
        m.shaped(),
        m.all_walls_standing(),
    ensures
        m.open_walls() == 0,
        m.open_within(Set::empty()),
{
    lemma_grid_all_standing(m.hwalls);
    lemma_grid_all_standing(m.vwalls);
    assert forall|r: int, c: int| 0 <= r < m.height() && 0 <= c <= m.width() implies #[trigger] m.hwalls[r][c] by {
        assert(m.hwalls[r].len() == m.width() + 1);
    }
    assert forall|c: int, r: int| 0 <= c < m.width() && 0 <= r <= m.height() implies #[trigger] m.vwalls[c][r] by {
        assert(m.vwalls[c].len() == m.height() + 1);
    }
}

/// Taking down a standing wall adds one to the number of walls taken down.
proof fn lemma_take_down_one(g: Seq<Seq<bool>>, r: int, c: int)
    requires
        0 <= r < g.len(),
        0 <= c < g[r].len(),
        g[r][c],
    ensures
        open_in_grid(g.update(r, g[r].update(c, false))) == open_in_grid(g) + 1,
{
    lemma_row_open_one(g[r], c);
    lemma_grid_update(g, r, g[r].update(c, false));
}

/// The top of the stack is a cell of the `n` by `n` area that has not been visited.
pub open spec fn fresh_top(acc: Set<Coord>, stack: Seq<Coord>, n: int) -> bool {
    &&& stack.len() > 0
    &&& stack.last().0 < n
    &&& stack.last().1 < n
    &&& !acc.contains(stack.last())
}

/// The visited cells together with the top of the stack when it is fresh.
pub open spec fn reached(acc: Set<Coord>, stack: Seq<Coord>, n: int) -> Set<Coord> {
    if fresh_top(acc, stack, n) {
        acc.insert(stack.last())
    } else {
        acc
    }
}

/// The state of the depth-first carving that counts walls: every wall taken down joins two
/// reached cells, and one wall fewer is down than cells are reached (`size` counts the
/// visited cells).
#[verifier::opaque]
pub open spec fn dfs_tree(m: MazeView, acc: Set<Coord>, size: nat, stack: Seq<Coord>, n: int) -> bool {
    &&& m.open_walls() + 1 == size + (if fresh_top(acc, stack, n) {
        1int
    } else {
        0int
    })
    &&& m.open_within(reached(acc, stack, n))
}

pub proof fn lemma_tree_start(m: MazeView, n: int, o: Coord)
    requires
        m.shaped(),
        m.all_walls_standing(),
        o.0 < n,
        o.1 < n,
    ensures
        dfs_tree(m, Set::empty(), 0, seq![o], n),
{
    reveal(dfs_tree);
    lemma_all_standing_none_open(m);
    assert(fresh_top(Set::empty(), seq![o], n));
}

/// Taking down the wall from a cell of `v` towards a neighbouring cell outside `v`: that wall
/// stood, one more wall is down, and every wall that is down joins two cells of `v` and the
/// neighbour.
pub proof fn lemma_take_down_between(m: MazeView, v: Set<Coord>, cur: Coord, d: Direction)
    requires
        m.shaped(),
        m.height() == m.width(),
        m.width() <= i32::MAX,
        cur.0 < m.width(),
        cur.1 < m.width(),
        nbr_in(cur, d, m.width(), m.width()),
        m.open_within(v),
        !v.contains(nbr(cur, d)),
    ensures
        m.with_cell_wall(cur.0, cur.1, Some(d), false).open_walls() == m.open_walls() + 1,
        m.with_cell_wall(cur.0, cur.1, Some(d), false).open_within(v.insert(nbr(cur, d)).insert(cur)),
{
    let n = m.width();
    let next = nbr(cur, d);
    let r = cur.0 as int;
    let c = cur.1 as int;
    assert((cur.0 as i32) as int == r);
    assert((cur.1 as i32) as int == c);
    assert((m.hwalls.len() as i32) as int == n);
    assert((m.vwalls.len() as i32) as int == n);
    assert(m.in_range(r, c));
    lemma_lookup_placed(m, r, c);
    let cell = m.cell(r, c);
    lemma_placed_walls(m, cell, d);
    let w = wall_toward(cell, d);
    lemma_with_wall_shaped(m, w, false);
    let m2 = m.with_cell_wall(cur.0, cur.1, Some(d), false);
    assert(m2 == m.with_wall(w, false));
    let v2 = v.insert(next).insert(cur);
    match d {
        Direction::East => {
            assert(m.hwalls[r].len() == n + 1);
            assert(m.hwalls[r][c + 1]);
            lemma_take_down_one(m.hwalls, r, c + 1);
            assert forall|i: int, j: int|
                0 <= i < m2.height() && 0 <= j <= m2.width() && !#[trigger] m2.hwalls[i][j] implies {
                &&& 1 <= j < m2.width()
                &&& v2.contains((i as usize, (j - 1) as usize))
                &&& v2.contains((i as usize, j as usize))
            } by {
                if i != r || j != c + 1 {
                    assert(!m.hwalls[i][j]);
                }
            }
            assert forall|j: int, i: int|
                0 <= j < m2.width() && 0 <= i <= m2.height() && !#[trigger] m2.vwalls[j][i] implies {
                &&& 1 <= i < m2.height()
                &&& v2.contains(((i - 1) as usize, j as usize))
                &&& v2.contains((i as usize, j as usize))
            } by {
                assert(!m.vwalls[j][i]);
            }
        },
        Direction::West => {
            assert(m.hwalls[r].len() == n + 1);
            assert(m.hwalls[r][c]);
            lemma_take_down_one(m.hwalls, r, c);
            assert forall|i: int, j: int|
                0 <= i < m2.height() && 0 <= j <= m2.width() && !#[trigger] m2.hwalls[i][j] implies {
                &&& 1 <= j < m2.width()
                &&& v2.contains((i as usize, (j - 1) as usize))
                &&& v2.contains((i as usize, j as usize))
            } by {
                if i != r || j != c {
                    assert(!m.hwalls[i][j]);
                }
            }
            assert forall|j: int, i: int|
                0 <= j < m2.width() && 0 <= i <= m2.height() && !#[trigger] m2.vwalls[j][i] implies {
                &&& 1 <= i < m2.height()
                &&& v2.contains(((i - 1) as usize, j as usize))
                &&& v2.contains((i as usize, j as usize))
            } by {
                assert(!m.vwalls[j][i]);
            }
        },
        Direction::North => {
            assert(m.vwalls[c].len() == n + 1);
            assert(m.vwalls[c][r]);
            lemma_take_down_one(m.vwalls, c, r);
            assert forall|i: int, j: int|
                0 <= i < m2.height() && 0 <= j <= m2.width() && !#[trigger] m2.hwalls[i][j] implies {
                &&& 1 <= j < m2.width()
                &&& v2.contains((i as usize, (j - 1) as usize))
                &&& v2.contains((i as usize, j as usize))
            } by {
                assert(!m.hwalls[i][j]);
            }
            assert forall|j: int, i: int|
                0 <= j < m2.width() && 0 <= i <= m2.height() && !#[trigger] m2.vwalls[j][i] implies {
                &&& 1 <= i < m2.height()
                &&& v2.contains(((i - 1) as usize, j as usize))
                &&& v2.contains((i as usize, j as usize))
            } by {
                if j != c || i != r {
                    assert(!m.vwalls[j][i]);
                }
            }
        },
        Direction::South => {
            assert(m.vwalls[c].len() == n + 1);
            assert(m.vwalls[c][r + 1]);
            lemma_take_down_one(m.vwalls, c, r + 1);
            assert forall|i: int, j: int|
                0 <= i < m2.height() && 0 <= j <= m2.width() && !#[trigger] m2.hwalls[i][j] implies {
                &&& 1 <= j < m2.width()
                &&& v2.contains((i as usize, (j - 1) as usize))
                &&& v2.contains((i as usize, j as usize))
            } by {
                assert(!m.hwalls[i][j]);
            }
            assert forall|j: int, i: int|
                0 <= j < m2.width() && 0 <= i <= m2.height() && !#[trigger] m2.vwalls[j][i] implies {
                &&& 1 <= i < m2.height()
                &&& v2.contains(((i - 1) as usize, j as usize))
                &&& v2.contains((i as usize, j as usize))
            } by {
                if j != c || i != r + 1 {
                    assert(!m.vwalls[j][i]);
                }
            }
        },
    }
}

/// Visiting the top cell and stepping on to an unvisited neighbour through the wall just taken
/// down adds one wall taken down and one reached cell.
pub proof fn lemma_tree_advance(
    m: MazeView,
    acc: Set<Coord>,
    size: nat,
    stack: Seq<Coord>,
    n: int,
    d: Direction,
    size2: nat,
)
    requires
        dfs_tree(m, acc, size, stack, n),
        m.shaped(),
        m.height() == n,
        m.width() == n,
        n <= i32::MAX,
        stack.len() > 0,
        stack.last().0 < n,
        stack.last().1 < n,
        nbr_in(stack.last(), d, n, n),
        !acc.contains(nbr(stack.last(), d)),
        size2 == size + (if acc.contains(stack.last()) {
            0int
        } else {
            1int
        }),
    ensures
        dfs_tree(
            m.with_cell_wall(stack.last().0, stack.last().1, Some(d), false),
            acc.insert(stack.last()),
            size2,
            stack.drop_last().push(stack.last()).push(nbr(stack.last(), d)),
            n,
        ),
{
    reveal(dfs_tree);
    let cur = stack.last();
    let next = nbr(cur, d);
    let acc2 = acc.insert(cur);
    let stack2 = stack.drop_last().push(cur).push(next);
    let v = reached(acc, stack, n);
    assert(next != cur);
    assert(!v.contains(next));
    lemma_take_down_between(m, v, cur, d);
    assert(fresh_top(acc2, stack2, n)) by {
        assert(stack2.last() == next);
    }
    assert(reached(acc2, stack2, n) == acc2.insert(next)) by {
        assert(stack2.last() == next);
    }
    let m2 = m.with_cell_wall(cur.0, cur.1, Some(d), false);
    lemma_open_within_grows(m2, v.insert(next).insert(cur), acc2.insert(next));
}

/// `open_within` holds of every larger set.
pub proof fn lemma_open_within_grows(m: MazeView, v: Set<Coord>, v2: Set<Coord>)
    requires
        m.open_within(v),
        v.subset_of(v2),
    ensures
        m.open_within(v2),
{
}

/// Visiting the top cell and stepping back, when the cell below it has been visited.
pub proof fn lemma_tree_retreat(
    m: MazeView,
    acc: Set<Coord>,
    size: nat,
    stack: Seq<Coord>,
    n: int,
    size2: nat,
)
    requires
        dfs_tree(m, acc, size, stack, n),
        stack.len() > 0,
        stack.last().0 < n,
        stack.last().1 < n,
        stack.len() > 1 ==> acc.insert(stack.last()).contains(stack[stack.len() - 2])
            || !(stack[stack.len() - 2].0 < n && stack[stack.len() - 2].1 < n),
        size2 == size + (if acc.contains(stack.last()) {
            0int
        } else {
            1int
        }),
    ensures
        dfs_tree(m, acc.insert(stack.last()), size2, stack.drop_last(), n),
{
    reveal(dfs_tree);
    let cur = stack.last();
    let acc2 = acc.insert(cur);
    let stack2 = stack.drop_last();
    assert(!fresh_top(acc2, stack2, n)) by {
        if stack2.len() > 0 {
            assert(stack2.last() == stack[stack.len() - 2]);
        }
    }
    assert(reached(acc, stack, n).subset_of(acc2));
}

/// With nothing left on the stack, one wall fewer is down than cells were visited.
pub proof fn lemma_tree_done(m: MazeView, acc: Set<Coord>, size: nat, n: int)
    requires
        dfs_tree(m, acc, size, Seq::empty(), n),
    ensures
        m.open_walls() + 1 == size,
{
    reveal(dfs_tree);
}

/// Taking down one wall of a cell adds at most one to the walls down.
pub proof fn lemma_open_at_most_one(m: MazeView, r: usize, c: usize, d: Option<Direction>)
    requires
        m.shaped(),
    ensures
        m.with_cell_wall(r, c, d, false).open_walls() <= m.open_walls() + 1,
{
    let ri = (r as i32) as int;
    let ci = (c as i32) as int;
    match d {
        Some(dir) => {
            if m.in_range(ri, ci) {
                lemma_lookup_placed(m, ri, ci);
                let cell = m.cell(ri, ci);
                lemma_placed_walls(m, cell, dir);
                let w = wall_toward(cell, dir);
                match w {
                    crate::maze::Wall::HorizontalWall(hw) => {
                        let (i, j) = (hw.coord.0 as int, hw.coord.1 as int);
                        if m.hwalls[i][j] {
                            lemma_take_down_one(m.hwalls, i, j);
                        } else {
                            assert(m.hwalls[i].update(j, false) =~= m.hwalls[i]);
                            assert(m.hwalls.update(i, m.hwalls[i].update(j, false)) =~= m.hwalls);
                        }
                    },
                    crate::maze::Wall::VerticalWall(vw) => {
                        let (j, i) = (vw.coord.1 as int, vw.coord.0 as int);
                        if m.vwalls[j][i] {
                            lemma_take_down_one(m.vwalls, j, i);
                        } else {
                            assert(m.vwalls[j].update(i, false) =~= m.vwalls[j]);
                            assert(m.vwalls.update(j, m.vwalls[j].update(i, false)) =~= m.vwalls);
                        }
                    },
                }
            }
        },
        None => {},
    }
}

} // verus!
