use vstd::prelude::*;

use crate::generate::{next_steps, opposite};
use crate::maze::{
    lemma_lookup_placed, lemma_placed_walls, lemma_with_wall_shaped, step_col, step_row, wall_toward,
    Coord, Direction, MazeView,
};
use crate::paths::{lemma_reach_extend};

verus! {

/// Every coordinate.
pub open spec fn everywhere() -> spec_fn(Coord) -> bool {
    |q: Coord| true
}

/// `q` is `o` or a walk leads from `o` to `q`.
pub open spec fn connected(m: MazeView, o: Coord, q: Coord) -> bool {
    q == o || m.reachable(everywhere(), o, q)
}

/// The maze is square, small enough for its coordinates to be `i32`, and `o` is one of its cells.
pub open spec fn square_with(m: MazeView, n: int, o: Coord) -> bool {
    &&& m.shaped()
    &&& m.height() == n
    &&& m.width() == n
    &&& n <= i32::MAX
    &&& o.0 < n
    &&& o.1 < n
}

/// The step from `p` in direction `d` stays in a `rows` by `cols` area.
pub open spec fn nbr_in(p: Coord, d: Direction, rows: int, cols: int) -> bool {
    &&& 0 <= p.0 + step_row(d) < rows
    &&& 0 <= p.1 + step_col(d) < cols
}

/// The coordinate one step from `p` in direction `d`.
pub open spec fn nbr(p: Coord, d: Direction) -> Coord {
    ((p.0 + step_row(d)) as usize, (p.1 + step_col(d)) as usize)
}

/// Every neighbour of `p` in the area is in `v`.
pub open spec fn closed_at(v: Set<Coord>, p: Coord, rows: int, cols: int) -> bool {
    &&& nbr_in(p, Direction::North, rows, cols) ==> v.contains(nbr(p, Direction::North))
    &&& nbr_in(p, Direction::South, rows, cols) ==> v.contains(nbr(p, Direction::South))
    &&& nbr_in(p, Direction::East, rows, cols) ==> v.contains(nbr(p, Direction::East))
    &&& nbr_in(p, Direction::West, rows, cols) ==> v.contains(nbr(p, Direction::West))
}

/// Carving keeps every step: a wall that could be passed still can.
pub proof fn lemma_carve_keeps_steps(old: MazeView, new: MazeView)
    requires
        old.shaped(),
        new.carved_from(old),
    ensures
        forall|p: Coord, q: Coord| #[trigger] old.is_step(p, q) ==> new.is_step(p, q),
{
    assert forall|p: Coord, q: Coord| #[trigger] old.is_step(p, q) implies new.is_step(p, q) by {
        let r = (p.0 as i32) as int;
        let c = (p.1 as i32) as int;
        assert(old.in_range(r, c));
        lemma_lookup_placed(old, r, c);
        let cell = old.cell(r, c);
        assert(new.cell(r, c) == cell);
        assert(new.hwalls.len() == old.hwalls.len());
        assert(new.vwalls.len() == old.vwalls.len());
        assert(old.hwalls[0].len() == old.width() + 1);
        assert(new.hwalls[0].len() == new.width() + 1);
        assert(old.vwalls[0].len() == old.height() + 1) by {
            assert(old.width() > 0);
        }
        assert(new.vwalls[0].len() == new.height() + 1);
        lemma_placed_walls(old, cell, Direction::North);
        lemma_placed_walls(old, cell, Direction::South);
        lemma_placed_walls(old, cell, Direction::East);
        lemma_placed_walls(old, cell, Direction::West);
        assert forall|d: Direction| old.succ(p, d) == Some(q) implies new.succ(p, d) == Some(q) by {
            let w = wall_toward(cell, d);
            assert(old.traversable(w));
            assert(new.traversable(w));
        }
    }
}

/// Carving keeps every walk.
pub proof fn lemma_carve_keeps_reach(
    old: MazeView,
    new: MazeView,
    allowed: spec_fn(Coord) -> bool,
    s: Coord,
    x: Coord,
    k: nat,
)
    requires
        old.shaped(),
        new.carved_from(old),
        old.reach(allowed, s, x, k),
    ensures
        new.reach(allowed, s, x, k),
{
    lemma_carve_keeps_steps(old, new);
    let w = choose|w: Seq<Coord>|
        #[trigger] old.is_walk(allowed, w) && w.len() == k + 1 && w[0] == s && w[k as int] == x;
    assert(new.is_walk(allowed, w));
}

/// Carving keeps connections.
pub proof fn lemma_carve_keeps_connected(old: MazeView, new: MazeView, o: Coord, q: Coord)
    requires
        old.shaped(),
        new.carved_from(old),
        connected(old, o, q),
    ensures
        connected(new, o, q),
{
    if q != o {
        let k = choose|k: nat| k >= 1 && #[trigger] old.reach(everywhere(), o, q, k);
        lemma_carve_keeps_reach(old, new, everywhere(), o, q, k);
    }
}

/// In a square maze, taking down the wall of a cell towards a neighbouring cell opens the step
/// between them.
pub proof fn lemma_opened_step(m: MazeView, n: int, o: Coord, cur: Coord, d: Direction)
    requires
        square_with(m, n, o),
        cur.0 < n,
        cur.1 < n,
        nbr_in(cur, d, n, n),
    ensures
        m.with_cell_wall(cur.0, cur.1, Some(d), false).succ(cur, d) == Some(nbr(cur, d)),
        m.with_cell_wall(cur.0, cur.1, Some(d), false).carved_from(m),
{
    let r = cur.0 as int;
    let c = cur.1 as int;
    assert((cur.0 as i32) as int == r);
    assert((cur.1 as i32) as int == c);
    assert(m.in_range(r, c));
    lemma_lookup_placed(m, r, c);
    let cell = m.cell(r, c);
    lemma_placed_walls(m, cell, d);
    let w = wall_toward(cell, d);
    lemma_with_wall_shaped(m, w, false);
    crate::generate::lemma_open_cell_wall_carves(m, cur.0, cur.1, Some(d));
    let m2 = m.with_wall(w, false);
    assert(m2 == m.with_cell_wall(cur.0, cur.1, Some(d), false));
    assert(m2.in_range(r, c));
    lemma_lookup_placed(m2, r, c);
    assert(m2.cell(r, c) == cell);
    let r2 = r + step_row(d);
    let c2 = c + step_col(d);
    assert(m2.in_range(r2, c2));
    assert(m2.hwalls[0].len() == n + 1);
    assert(m2.vwalls[0].len() == n + 1);
    assert(m2.hwalls[r].len() == n + 1);
    assert(m2.vwalls[c].len() == n + 1);
    assert(m2.traversable(w));
}

/// A walk to `cur` (or `cur` being `o`) and an open step from `cur` to `q` connect `q`.
pub proof fn lemma_connect_step(m: MazeView, o: Coord, cur: Coord, q: Coord)
    requires
        connected(m, o, cur),
        m.is_step(cur, q),
    ensures
        connected(m, o, q),
{
    if cur == o {
        lemma_reach_extend(m, everywhere(), o, cur, 0, q);
    } else {
        let k = choose|k: nat| k >= 1 && #[trigger] m.reach(everywhere(), o, cur, k);
        lemma_reach_extend(m, everywhere(), o, cur, k, q);
    }
}

/// When `get_next` offers no step from a cell of a square area, every neighbour of the cell is
/// in `acc`.
pub proof fn lemma_no_next_closed(cur: Coord, acc: Set<Coord>, n: int)
    requires
        0 <= n <= i32::MAX,
        cur.0 < n,
        cur.1 < n,
        next_steps(cur, acc, n as usize, n as usize).len() == 0,
    ensures
        closed_at(acc, cur, n, n),
{
    assert((cur.0 as i32) as int == cur.0);
    assert((cur.1 as i32) as int == cur.1);
    assert(((n as usize) as i32) as int == n);
    assert(crate::generate::next_step(cur, acc, n as usize, n as usize, Direction::South).len() == 0);
    assert(crate::generate::next_step(cur, acc, n as usize, n as usize, Direction::North).len() == 0);
    assert(crate::generate::next_step(cur, acc, n as usize, n as usize, Direction::East).len() == 0);
    assert(crate::generate::next_step(cur, acc, n as usize, n as usize, Direction::West).len() == 0);
}

/// A neighbour of a cell of a square area that is not in `acc` is among the steps that
/// `get_next` offers.
pub proof fn lemma_next_steps_cover(cur: Coord, acc: Set<Coord>, n: int, d: Direction)
    requires
        0 <= n <= i32::MAX,
        cur.0 < n,
        cur.1 < n,
        nbr_in(cur, d, n, n),
        !acc.contains(nbr(cur, d)),
    ensures
        next_steps(cur, acc, n as usize, n as usize).contains((nbr(cur, d), d)),
{
    assert((cur.0 as i32) as int == cur.0);
    assert((cur.1 as i32) as int == cur.1);
    assert(((n as usize) as i32) as int == n);
    let w = n as usize;
    let a = crate::generate::next_step(cur, acc, w, w, Direction::South);
    let b = crate::generate::next_step(cur, acc, w, w, Direction::North);
    let c = crate::generate::next_step(cur, acc, w, w, Direction::East);
    let e = crate::generate::next_step(cur, acc, w, w, Direction::West);
    let all = next_steps(cur, acc, w, w);
    assert(all == a + b + c + e);
    let step = (nbr(cur, d), d);
    match d {
        Direction::South => {
            assert(a == seq![step]);
            assert(all[0] == step);
        },
        Direction::North => {
            assert(b == seq![step]);
            assert(all[a.len() as int] == step);
        },
        Direction::East => {
            assert(c == seq![step]);
            assert(all[(a.len() + b.len()) as int] == step);
        },
        Direction::West => {
            assert(e == seq![step]);
            assert(all[(a.len() + b.len() + c.len()) as int] == step);
        },
    }
}

/// Joining a walk to `b` with a walk of `k` steps from `b` to `c`.
proof fn lemma_reach_join(m: MazeView, a: Coord, b: Coord, c: Coord, k: nat)
    requires
        connected(m, a, b),
        k >= 1,
        m.reach(everywhere(), b, c, k),
    ensures
        connected(m, a, c),
    decreases k,
{
    let z = crate::paths::lemma_reach_last_step(m, everywhere(), b, c, (k - 1) as nat);
    if k >= 2 {
        lemma_reach_join(m, a, b, z, (k - 1) as nat);
    }
    lemma_connect_step(m, a, z, c);
}

/// Connections chain.
pub proof fn lemma_connected_trans(m: MazeView, a: Coord, b: Coord, c: Coord)
    requires
        connected(m, a, b),
        connected(m, b, c),
    ensures
        connected(m, a, c),
{
    if c != b {
        let k = choose|k: nat| k >= 1 && #[trigger] m.reach(everywhere(), b, c, k);
        lemma_reach_join(m, a, b, c, k);
    }
}

/// The state of the recursive depth-first carving from `start` in an `n` by `n` area: every
/// cell visited since `entry` is connected to `start`, and each of them other than `start` has
/// all its neighbours visited.
#[verifier::opaque]
pub open spec fn dfs_reached(m: MazeView, start: Coord, entry: Set<Coord>, visited: Set<Coord>, n: int) -> bool {
    &&& forall|p: Coord| #[trigger] visited.contains(p) && !entry.contains(p) ==> connected(m, start, p)
    &&& forall|p: Coord|
        #[trigger] visited.contains(p) && !entry.contains(p) && p != start ==> closed_at(visited, p, n, n)
}

pub proof fn lemma_reached_start(m: MazeView, start: Coord, entry: Set<Coord>, n: int)
    ensures
        dfs_reached(m, start, entry, entry.insert(start), n),
{
    reveal(dfs_reached);
}

/// Taking down the wall from `start` towards a neighbour keeps the state and connects the
/// neighbour.
pub proof fn lemma_reached_open(
    m: MazeView,
    start: Coord,
    entry: Set<Coord>,
    visited: Set<Coord>,
    n: int,
    d: Direction,
)
    requires
        dfs_reached(m, start, entry, visited, n),
        square_with(m, n, start),
        nbr_in(start, d, n, n),
    ensures
        dfs_reached(m.with_cell_wall(start.0, start.1, Some(d), false), start, entry, visited, n),
        connected(m.with_cell_wall(start.0, start.1, Some(d), false), start, nbr(start, d)),
        m.with_cell_wall(start.0, start.1, Some(d), false).carved_from(m),
{
    reveal(dfs_reached);
    let m2 = m.with_cell_wall(start.0, start.1, Some(d), false);
    lemma_opened_step(m, n, start, start, d);
    lemma_connect_step(m2, start, start, nbr(start, d));
    assert forall|p: Coord| #[trigger] visited.contains(p) && !entry.contains(p) implies connected(m2, start, p) by {
        lemma_carve_keeps_connected(m, m2, start, p);
    }
}

/// After a nested carving from the neighbour `q` visited the cells of `post` outside `pre`,
/// each connected to `q` and with its neighbours visited, the state holds of `post`.
pub proof fn lemma_reached_merge(
    m: MazeView,
    m2: MazeView,
    start: Coord,
    q: Coord,
    entry: Set<Coord>,
    pre: Set<Coord>,
    post: Set<Coord>,
    n: int,
)
    requires
        dfs_reached(m, start, entry, pre, n),
        m.shaped(),
        m2.carved_from(m),
        connected(m, start, q),
        pre.subset_of(post),
        forall|p: Coord|
            #[trigger] post.contains(p) && !pre.contains(p) ==> connected(m2, q, p) && closed_at(post, p, n, n),
    ensures
        dfs_reached(m2, start, entry, post, n),
{
    reveal(dfs_reached);
    lemma_carve_keeps_connected(m, m2, start, q);
    assert forall|p: Coord| #[trigger] post.contains(p) && !entry.contains(p) implies connected(m2, start, p) by {
        if pre.contains(p) {
            lemma_carve_keeps_connected(m, m2, start, p);
        } else {
            lemma_connected_trans(m2, start, q, p);
        }
    }
    assert forall|p: Coord|
        #[trigger] post.contains(p) && !entry.contains(p) && p != start implies closed_at(post, p, n, n) by {
        if pre.contains(p) {
            assert(closed_at(pre, p, n, n));
        }
    }
}

/// Once every neighbour of `start` is visited, every cell visited since `entry` is connected
/// to `start` and has its neighbours visited.
pub proof fn lemma_reached_close(m: MazeView, start: Coord, entry: Set<Coord>, visited: Set<Coord>, n: int)
    requires
        dfs_reached(m, start, entry, visited, n),
        closed_at(visited, start, n, n),
    ensures
        forall|p: Coord|
            #[trigger] visited.contains(p) && !entry.contains(p) ==> connected(m, start, p) && closed_at(
                visited,
                p,
                n,
                n,
            ),
{
    reveal(dfs_reached);
}

/// When every step that `get_next` offered from `start` (in any order) leads to a visited
/// cell, and the cells visited then are still visited, every neighbour of `start` is visited.
pub proof fn lemma_offered_all_visited(
    start: Coord,
    v0: Set<Coord>,
    visited: Set<Coord>,
    offered: Seq<(Coord, Direction)>,
    n: int,
)
    requires
        0 <= n <= i32::MAX,
        start.0 < n,
        start.1 < n,
        v0.subset_of(visited),
        offered.to_multiset() == next_steps(start, v0, n as usize, n as usize).to_multiset(),
        forall|k: int| 0 <= k < offered.len() ==> visited.contains((#[trigger] offered[k]).0),
    ensures
        closed_at(visited, start, n, n),
{
    let steps = next_steps(start, v0, n as usize, n as usize);
    assert forall|d: Direction| nbr_in(start, d, n, n) implies visited.contains(#[trigger] nbr(start, d)) by {
        if !v0.contains(nbr(start, d)) {
            lemma_next_steps_cover(start, v0, n, d);
            let j = choose|j: int| 0 <= j < steps.len() && steps[j] == (nbr(start, d), d);
            crate::generate::lemma_same_multiset_member(steps, offered, j);
            let k = choose|k: int| 0 <= k < offered.len() && offered[k] == steps[j];
            assert(visited.contains(offered[k].0));
        }
    }
    assert(nbr_in(start, Direction::North, n, n) ==> visited.contains(nbr(start, Direction::North)));
    assert(nbr_in(start, Direction::South, n, n) ==> visited.contains(nbr(start, Direction::South)));
    assert(nbr_in(start, Direction::East, n, n) ==> visited.contains(nbr(start, Direction::East)));
    assert(nbr_in(start, Direction::West, n, n) ==> visited.contains(nbr(start, Direction::West)));
}

/// A set that holds `o` and every neighbour of each of its members holds every cell of the
/// area.
pub proof fn lemma_closed_fills(v: Set<Coord>, o: Coord, rows: int, cols: int, q: Coord)
    requires
        o.0 < rows,
        o.1 < cols,
        v.contains(o),
        forall|p: Coord| #[trigger] v.contains(p) && p.0 < rows && p.1 < cols ==> closed_at(v, p, rows, cols),
        q.0 < rows,
        q.1 < cols,
    ensures
        v.contains(q),
    decreases
        (if q.0 >= o.0 {
            q.0 - o.0
        } else {
            o.0 - q.0
        }) + (if q.1 >= o.1 {
            q.1 - o.1
        } else {
            o.1 - q.1
        }),
{
    if q == o {
    } else if q.0 > o.0 {
        let p: Coord = ((q.0 - 1) as usize, q.1);
        lemma_closed_fills(v, o, rows, cols, p);
        assert(nbr(p, Direction::South) == q);
    } else if q.0 < o.0 {
        let p: Coord = ((q.0 + 1) as usize, q.1);
        lemma_closed_fills(v, o, rows, cols, p);
        assert(nbr(p, Direction::North) == q);
    } else if q.1 > o.1 {
        let p: Coord = (q.0, (q.1 - 1) as usize);
        lemma_closed_fills(v, o, rows, cols, p);
        assert(nbr(p, Direction::East) == q);
    } else {
        let p: Coord = (q.0, (q.1 + 1) as usize);
        lemma_closed_fills(v, o, rows, cols, p);
        assert(nbr(p, Direction::West) == q);
    }
}


/// The state of the depth-first carving in a square maze: visited cells and stacked cells are
/// connected to `o`, a visited cell that is not stacked has all its neighbours visited, and `o`
/// is visited unless it is the only stacked cell.
#[verifier::opaque]
pub open spec fn dfs_connecting(m: MazeView, acc: Set<Coord>, stack: Seq<Coord>, n: int, o: Coord) -> bool {
    &&& square_with(m, n, o)
    &&& forall|p: Coord| #[trigger] acc.contains(p) ==> connected(m, o, p)
    &&& forall|i: int|
        0 <= i < stack.len() ==> connected(m, o, #[trigger] stack[i]) && stack[i].0 < n && stack[i].1 < n
    &&& forall|p: Coord|
        #[trigger] acc.contains(p) && !stack.contains(p) && p.0 < n && p.1 < n ==> closed_at(acc, p, n, n)
    &&& acc.contains(o) || stack == seq![o]
}

pub proof fn lemma_dfs_start(m: MazeView, n: int, o: Coord)
    requires
        square_with(m, n, o),
    ensures
        dfs_connecting(m, Set::empty(), seq![o], n, o),
{
    reveal(dfs_connecting);
}

/// The popped cell and its stack position.
pub proof fn lemma_dfs_top(m: MazeView, acc: Set<Coord>, stack: Seq<Coord>, n: int, o: Coord)
    requires
        dfs_connecting(m, acc, stack, n, o),
        stack.len() > 0,
    ensures
        stack.last().0 < n,
        stack.last().1 < n,
        square_with(m, n, o),
{
    reveal(dfs_connecting);
    assert(stack[stack.len() - 1] == stack.last());
}

/// Visiting the top cell and stepping on to an unvisited neighbour through the wall just taken
/// down.
pub proof fn lemma_dfs_advance(
    m: MazeView,
    m2: MazeView,
    acc: Set<Coord>,
    stack: Seq<Coord>,
    n: int,
    o: Coord,
    d: Direction,
)
    requires
        dfs_connecting(m, acc, stack, n, o),
        stack.len() > 0,
        nbr_in(stack.last(), d, n, n),
        m2 == m.with_cell_wall(stack.last().0, stack.last().1, Some(d), false),
    ensures
        dfs_connecting(
            m2,
            acc.insert(stack.last()),
            stack.drop_last().push(stack.last()).push(nbr(stack.last(), d)),
            n,
            o,
        ),
{
    reveal(dfs_connecting);
    let cur = stack.last();
    let next = nbr(cur, d);
    assert(stack[stack.len() - 1] == cur);
    lemma_opened_step(m, n, o, cur, d);
    let acc2 = acc.insert(cur);
    let stack2 = stack.drop_last().push(cur).push(next);
    assert forall|p: Coord| #[trigger] acc2.contains(p) implies connected(m2, o, p) by {
        if p == cur {
            assert(connected(m, o, stack[stack.len() - 1]));
        }
        lemma_carve_keeps_connected(m, m2, o, p);
    }
    assert(connected(m, o, stack[stack.len() - 1]));
    lemma_carve_keeps_connected(m, m2, o, cur);
    assert(m2.is_step(cur, next));
    lemma_connect_step(m2, o, cur, next);
    assert forall|i: int| 0 <= i < stack2.len() implies connected(m2, o, #[trigger] stack2[i]) && stack2[i].0 < n && stack2[i].1 < n by {
        if i < stack.len() - 1 {
            assert(stack2[i] == stack[i]);
            lemma_carve_keeps_connected(m, m2, o, stack[i]);
        }
    }
    assert forall|p: Coord|
        #[trigger] acc2.contains(p) && !stack2.contains(p) && p.0 < n && p.1 < n implies closed_at(acc2, p, n, n) by {
        assert(p != cur) by {
            assert(stack2[stack2.len() - 2] == cur);
        }
        assert(!stack.contains(p)) by {
            if stack.contains(p) {
                let i = choose|i: int| 0 <= i < stack.len() && stack[i] == p;
                assert(i != stack.len() - 1);
                assert(stack2[i] == stack[i]);
            }
        }
        assert(closed_at(acc, p, n, n));
    }
    if !acc.contains(o) {
        assert(stack == seq![o]);
        assert(cur == o);
    }
}

/// Visiting the top cell when all its neighbours are visited, and stepping back.
pub proof fn lemma_dfs_retreat(m: MazeView, acc: Set<Coord>, stack: Seq<Coord>, n: int, o: Coord)
    requires
        dfs_connecting(m, acc, stack, n, o),
        stack.len() > 0,
        closed_at(acc.insert(stack.last()), stack.last(), n, n),
    ensures
        dfs_connecting(m, acc.insert(stack.last()), stack.drop_last(), n, o),
{
    reveal(dfs_connecting);
    let cur = stack.last();
    assert(stack[stack.len() - 1] == cur);
    let acc2 = acc.insert(cur);
    let stack2 = stack.drop_last();
    assert forall|p: Coord| #[trigger] acc2.contains(p) implies connected(m, o, p) by {
        if p == cur {
            assert(connected(m, o, stack[stack.len() - 1]));
        }
    }
    assert forall|i: int| 0 <= i < stack2.len() implies connected(m, o, #[trigger] stack2[i]) && stack2[i].0 < n && stack2[i].1 < n by {
        assert(stack2[i] == stack[i]);
    }
    assert forall|p: Coord|
        #[trigger] acc2.contains(p) && !stack2.contains(p) && p.0 < n && p.1 < n implies closed_at(acc2, p, n, n) by {
        if p != cur {
            assert(!stack.contains(p)) by {
                if stack.contains(p) {
                    let i = choose|i: int| 0 <= i < stack.len() && stack[i] == p;
                    assert(stack2[i] == stack[i]);
                }
            }
            assert(closed_at(acc, p, n, n));
        }
    }
    if !acc.contains(o) {
        assert(cur == o);
    }
}

/// When the stack is empty, every cell is connected to `o`.
pub proof fn lemma_dfs_done(m: MazeView, acc: Set<Coord>, n: int, o: Coord)
    requires
        dfs_connecting(m, acc, Seq::empty(), n, o),
    ensures
        forall|q: Coord| q.0 < n && q.1 < n ==> #[trigger] connected(m, o, q),
        forall|q: Coord| q.0 < n && q.1 < n ==> #[trigger] acc.contains(q),
{
    reveal(dfs_connecting);
    assert(Seq::<Coord>::empty().len() != seq![o].len());
    assert(acc.contains(o));
    assert forall|p: Coord| #[trigger] acc.contains(p) && p.0 < n && p.1 < n implies closed_at(acc, p, n, n) by {
        assert(!Seq::<Coord>::empty().contains(p));
    }
    assert forall|q: Coord| q.0 < n && q.1 < n implies #[trigger] acc.contains(q) by {
        lemma_closed_fills(acc, o, n, n, q);
    }
    assert forall|q: Coord| q.0 < n && q.1 < n implies #[trigger] connected(m, o, q) by {
        assert(acc.contains(q));
    }
}


/// Connections depend on the walls only.
pub proof fn lemma_connected_same_walls(m1: MazeView, m2: MazeView, o: Coord, q: Coord)
    requires
        m1.same_walls(m2),
        connected(m1, o, q),
    ensures
        connected(m2, o, q),
{
    if q != o {
        let k = choose|k: nat| k >= 1 && #[trigger] m1.reach(everywhere(), o, q, k);
        crate::paths::lemma_reach_same_walls(m1, m2, everywhere(), o, q, k);
    }
}


impl MazeView {
    /// Every wall on the outer edge of the maze stands.
    pub open spec fn boundary_standing(self) -> bool {
        &&& forall|r: int|
            #![trigger self.hwalls[r]]
            0 <= r < self.height() ==> self.hwalls[r][0] && self.hwalls[r][self.width()]
        &&& forall|c: int|
            #![trigger self.vwalls[c]]
            0 <= c < self.width() ==> self.vwalls[c][0] && self.vwalls[c][self.height()]
    }
}

/// Taking down the wall between a cell and a neighbouring cell keeps the outer edge standing.
pub proof fn lemma_inner_wall_keeps_boundary(m: MazeView, r: usize, c: usize, d: Direction)
    requires
        m.shaped(),
        m.boundary_standing(),
        r <= i32::MAX,
        c <= i32::MAX,
        m.in_range(r as int, c as int),
        nbr_in((r, c), d, m.height(), m.width()),
    ensures
        m.with_cell_wall(r, c, Some(d), false).boundary_standing(),
        m.with_cell_wall(r, c, Some(d), false).carved_from(m),
{
    lemma_lookup_placed(m, r as int, c as int);
    let cell = m.cell(r as int, c as int);
    lemma_placed_walls(m, cell, d);
    lemma_with_wall_shaped(m, wall_toward(cell, d), false);
    crate::generate::lemma_open_cell_wall_carves(m, r, c, Some(d));
    let m2 = m.with_cell_wall(r, c, Some(d), false);
    assert(m2 == m.with_wall(wall_toward(cell, d), false));
    assert(m2.height() == m.height() && m2.width() == m.width());
    assert forall|k: int| 0 <= k < m2.height() implies m2.hwalls[k][0] && m2.hwalls[k][m2.width()] by {
        assert(m.hwalls[k][0] && m.hwalls[k][m.width()]);
        assert(m.hwalls[k].len() == m.width() + 1);
    }
    assert forall|k: int| 0 <= k < m2.width() implies m2.vwalls[k][0] && m2.vwalls[k][m2.height()] by {
        assert(m.vwalls[k][0] && m.vwalls[k][m.height()]);
        assert(m.vwalls[k].len() == m.height() + 1);
    }
}

impl MazeView {
    /// The four walls of cell `p` stand.
    pub open spec fn closed_cell(self, p: Coord) -> bool {
        let (r, c) = (p.0 as int, p.1 as int);
        &&& self.hwalls[r][c]
        &&& self.hwalls[r][c + 1]
        &&& self.vwalls[c][r]
        &&& self.vwalls[c][r + 1]
    }

    /// The neighbour of `a` in direction `d`, where the `n` by `n` area has one, is in `v` and
    /// has a wall down.
    pub open spec fn settled_toward(self, v: Set<Coord>, a: Coord, d: Direction, n: int) -> bool {
        nbr_in(a, d, n, n) ==> v.contains(nbr(a, d)) && !self.closed_cell(nbr(a, d))
    }

    /// Every neighbour of `a` in the `n` by `n` area is in `v` and has a wall down.
    pub open spec fn settled_around(self, v: Set<Coord>, a: Coord, n: int) -> bool {
        &&& self.settled_toward(v, a, Direction::North, n)
        &&& self.settled_toward(v, a, Direction::South, n)
        &&& self.settled_toward(v, a, Direction::East, n)
        &&& self.settled_toward(v, a, Direction::West, n)
    }
}

/// Two cells side by side or one above the other.
pub open spec fn adjacent(p: Coord, q: Coord) -> bool {
    ||| p.0 == q.0 && (p.1 + 1 == q.1 || q.1 + 1 == p.1)
    ||| p.1 == q.1 && (p.0 + 1 == q.0 || q.0 + 1 == p.0)
}

/// A cell with a wall down keeps it when walls are only taken down.
pub proof fn lemma_carving_opens_cells(m: MazeView, m2: MazeView)
    requires
        m.shaped(),
        m2.carved_from(m),
    ensures
        forall|p: Coord| p.0 < m.height() && p.1 < m.width() && #[trigger] m2.closed_cell(p) ==> m.closed_cell(p),
{
    assert forall|p: Coord| p.0 < m.height() && p.1 < m.width() && #[trigger] m2.closed_cell(p) implies m.closed_cell(p) by {
        let (r, c) = (p.0 as int, p.1 as int);
        assert(m2.hwalls[r][c]);
        assert(m2.hwalls[r][c + 1]);
        assert(m2.vwalls[c][r]);
        assert(m2.vwalls[c][r + 1]);
    }
}

/// Taking down the wall between a cell and a neighbouring cell of a square maze leaves both
/// with a wall down.
pub proof fn lemma_shared_wall_down(m: MazeView, p: Coord, d: Direction)
    requires
        m.shaped(),
        m.height() == m.width(),
        m.width() <= i32::MAX,
        p.0 < m.width(),
        p.1 < m.width(),
        nbr_in(p, d, m.width(), m.width()),
    ensures
        !m.with_cell_wall(p.0, p.1, Some(d), false).closed_cell(p),
        !m.with_cell_wall(p.0, p.1, Some(d), false).closed_cell(nbr(p, d)),
{
    let n = m.width();
    let r = p.0 as int;
    let c = p.1 as int;
    assert((p.0 as i32) as int == r);
    assert((p.1 as i32) as int == c);
    assert((m.hwalls.len() as i32) as int == n);
    assert((m.vwalls.len() as i32) as int == n);
    lemma_lookup_placed(m, r, c);
    let cell = m.cell(r, c);
    lemma_placed_walls(m, cell, d);
    let w = wall_toward(cell, d);
    let m2 = m.with_cell_wall(p.0, p.1, Some(d), false);
    assert(m2 == m.with_wall(w, false));
    assert(m.hwalls[r].len() == n + 1);
    assert(m.vwalls[c].len() == n + 1);
    match d {
        Direction::North => {
            assert(!m2.vwalls[c][r]);
        },
        Direction::South => {
            assert(!m2.vwalls[c][r + 1]);
        },
        Direction::East => {
            assert(!m2.hwalls[r][c + 1]);
        },
        Direction::West => {
            assert(!m2.hwalls[r][c]);
        },
    }
}

/// When every cell of an `n` by `n` area is in `v`, and every cell of `v` with all its walls
/// standing has only neighbours in `v` with a wall down, no two adjacent cells both have all
/// their walls standing.
pub proof fn lemma_no_closed_pair(m: MazeView, v: Set<Coord>, n: int)
    requires
        forall|q: Coord| q.0 < n && q.1 < n ==> #[trigger] v.contains(q),
        forall|a: Coord| #[trigger] v.contains(a) && m.closed_cell(a) ==> m.settled_around(v, a, n),
    ensures
        forall|p: Coord, q: Coord|
            p.0 < n && q.0 < n && p.1 < n && q.1 < n && adjacent(p, q) ==> !(#[trigger] m.closed_cell(p)
                && #[trigger] m.closed_cell(q)),
{
    assert forall|p: Coord, q: Coord|
        p.0 < n && q.0 < n && p.1 < n && q.1 < n && adjacent(p, q) implies !(#[trigger] m.closed_cell(p)
            && #[trigger] m.closed_cell(q)) by {
        if m.closed_cell(p) {
            assert(v.contains(p));
            assert(m.settled_around(v, p, n));
            if p.0 == q.0 && p.1 + 1 == q.1 {
                assert(nbr(p, Direction::East) == q);
            } else if p.0 == q.0 {
                assert(nbr(p, Direction::West) == q);
            } else if p.0 + 1 == q.0 {
                assert(nbr(p, Direction::South) == q);
            } else {
                assert(nbr(p, Direction::North) == q);
            }
        }
    }
}

/// Every cell of `v` with all its walls standing has only neighbours in `v`, each with a wall
/// down.
pub open spec fn walk_settled(m: MazeView, v: Set<Coord>, n: int) -> bool {
    forall|a: Coord| #[trigger] v.contains(a) && m.closed_cell(a) ==> m.settled_around(v, a, n)
}

proof fn lemma_settle_stuck_toward(m: MazeView, v: Set<Coord>, s: Coord, n: int, d: Direction)
    requires
        0 <= n <= i32::MAX,
        s.0 < n,
        s.1 < n,
        walk_settled(m, v, n),
        !v.contains(s),
        closed_at(v.insert(s), s, n, n),
    ensures
        m.settled_toward(v.insert(s), s, d, n),
{
    if nbr_in(s, d, n, n) {
        let b = nbr(s, d);
        let back = opposite(d);
        assert(nbr_in(b, back, n, n) && nbr(b, back) == s) by {
            match d {
                Direction::North => {
                    assert(b.0 == s.0 - 1 && b.1 == s.1);
                    assert(back == Direction::South);
                },
                Direction::South => {
                    assert(b.0 == s.0 + 1 && b.1 == s.1);
                    assert(back == Direction::North);
                },
                Direction::East => {
                    assert(b.0 == s.0 && b.1 == s.1 + 1);
                    assert(back == Direction::West);
                },
                Direction::West => {
                    assert(b.0 == s.0 && b.1 == s.1 - 1);
                    assert(back == Direction::East);
                },
            }
        }
        assert(v.insert(s).contains(b)) by {
            match d {
                Direction::North => {},
                Direction::South => {},
                Direction::East => {},
                Direction::West => {},
            }
        }
        assert(b != s);
        if m.closed_cell(b) {
            assert(m.settled_around(v, b, n));
            assert(m.settled_toward(v, b, back, n)) by {
                match d {
                    Direction::North => {},
                    Direction::South => {},
                    Direction::East => {},
                    Direction::West => {},
                }
            }
        }
    }
}

/// Visiting a fresh cell whose neighbours have all been visited keeps `walk_settled`.
pub proof fn lemma_settle_stuck(m: MazeView, v: Set<Coord>, s: Coord, n: int)
    requires
        0 <= n <= i32::MAX,
        s.0 < n,
        s.1 < n,
        walk_settled(m, v, n),
        !v.contains(s),
        closed_at(v.insert(s), s, n, n),
    ensures
        walk_settled(m, v.insert(s), n),
{
    let v2 = v.insert(s);
    assert forall|a: Coord| #[trigger] v2.contains(a) && m.closed_cell(a) implies m.settled_around(v2, a, n) by {
        if a != s {
            assert(m.settled_around(v, a, n));
        } else {
            lemma_settle_stuck_toward(m, v, s, n, Direction::North);
            lemma_settle_stuck_toward(m, v, s, n, Direction::South);
            lemma_settle_stuck_toward(m, v, s, n, Direction::East);
            lemma_settle_stuck_toward(m, v, s, n, Direction::West);
            assert(nbr_in(s, Direction::North, n, n) ==> v2.contains(nbr(s, Direction::North)) && !m.closed_cell(nbr(s, Direction::North)));
            assert(nbr_in(s, Direction::South, n, n) ==> v2.contains(nbr(s, Direction::South)) && !m.closed_cell(nbr(s, Direction::South)));
            assert(nbr_in(s, Direction::East, n, n) ==> v2.contains(nbr(s, Direction::East)) && !m.closed_cell(nbr(s, Direction::East)));
            assert(nbr_in(s, Direction::West, n, n) ==> v2.contains(nbr(s, Direction::West)) && !m.closed_cell(nbr(s, Direction::West)));
        }
    }
}

/// Visiting a cell and taking down one of its walls, and maybe others, keeps `walk_settled`.
pub proof fn lemma_settle_step(m: MazeView, m2: MazeView, v: Set<Coord>, s: Coord, n: int)
    requires
        walk_settled(m, v, n),
        m.shaped(),
        m.height() == n,
        m.width() == n,
        m2.carved_from(m),
        !m2.closed_cell(s),
        forall|a: Coord| #[trigger] v.contains(a) ==> a.0 < n && a.1 < n,
    ensures
        walk_settled(m2, v.insert(s), n),
{
    lemma_carving_opens_cells(m, m2);
    let v2 = v.insert(s);
    assert forall|a: Coord| #[trigger] v2.contains(a) && m2.closed_cell(a) implies m2.settled_around(v2, a, n) by {
        assert(a != s);
        assert(m.closed_cell(a));
        assert(m.settled_around(v, a, n));
    }
}

impl MazeView {
    /// Number of walls of cell `p` that are down.
    pub open spec fn down_count(self, p: Coord) -> int {
        let (r, c) = (p.0 as int, p.1 as int);
        (if self.hwalls[r][c] { 0int } else { 1int }) + (if self.hwalls[r][c + 1] {
            0int
        } else {
            1int
        }) + (if self.vwalls[c][r] { 0int } else { 1int }) + (if self.vwalls[c][r + 1] {
            0int
        } else {
            1int
        })
    }
}

/// Taking down the wall between a cell whose walls all stand and a neighbouring cell adds one
/// to the walls down of each of the two, and changes no other cell.
pub proof fn lemma_shared_wall_counts(m: MazeView, p: Coord, d: Direction)
    requires
        m.shaped(),
        m.height() == m.width(),
        m.width() <= i32::MAX,
        p.0 < m.width(),
        p.1 < m.width(),
        nbr_in(p, d, m.width(), m.width()),
        m.down_count(p) == 0,
    ensures
        m.with_cell_wall(p.0, p.1, Some(d), false).down_count(p) == 1,
        m.with_cell_wall(p.0, p.1, Some(d), false).down_count(nbr(p, d)) == m.down_count(nbr(p, d)) + 1,
        forall|q: Coord|
            q.0 < m.width() && q.1 < m.width() && q != p && q != nbr(p, d) ==> #[trigger] m.with_cell_wall(
                p.0,
                p.1,
                Some(d),
                false,
            ).down_count(q) == m.down_count(q),
{
    let n = m.width();
    let r = p.0 as int;
    let c = p.1 as int;
    assert((p.0 as i32) as int == r);
    assert((p.1 as i32) as int == c);
    assert((m.hwalls.len() as i32) as int == n);
    assert((m.vwalls.len() as i32) as int == n);
    lemma_lookup_placed(m, r, c);
    let cell = m.cell(r, c);
    lemma_placed_walls(m, cell, d);
    let w = wall_toward(cell, d);
    let m2 = m.with_cell_wall(p.0, p.1, Some(d), false);
    assert(m2 == m.with_wall(w, false));
    assert(m.hwalls[r].len() == n + 1);
    assert(m.vwalls[c].len() == n + 1);
    let b = nbr(p, d);
    match d {
        Direction::North => {
            assert(b == ((r - 1) as usize, c as usize));
            assert(m.vwalls[c][r]);
        },
        Direction::South => {
            assert(b == ((r + 1) as usize, c as usize));
            assert(m.vwalls[c][r + 1]);
        },
        Direction::East => {
            assert(b == (r as usize, (c + 1) as usize));
            assert(m.hwalls[r][c + 1]);
        },
        Direction::West => {
            assert(b == (r as usize, (c - 1) as usize));
            assert(m.hwalls[r][c]);
        },
    }
    assert forall|q: Coord|
        q.0 < n && q.1 < n && q != p && q != b implies #[trigger] m2.down_count(q) == m.down_count(q) by {
        let (i, j) = (q.0 as int, q.1 as int);
        assert(m.hwalls[i].len() == n + 1);
        assert(m.vwalls[j].len() == n + 1);
        match d {
            Direction::North | Direction::South => {
                assert(m2.hwalls == m.hwalls);
                if j == c {
                    assert(i != r);
                }
            },
            Direction::East | Direction::West => {
                assert(m2.vwalls == m.vwalls);
                if i == r {
                    assert(j != c);
                }
            },
        }
    }
}

/// The corridors of a random walk in an `n` by `n` area: each visited cell has at most two walls
/// down, the cell the walk stands on at most one, and every other cell none.
pub open spec fn walk_corridors(m: MazeView, v: Set<Coord>, at: Coord, n: int) -> bool {
    forall|q: Coord|
        q.0 < n && q.1 < n ==> {
            &&& v.contains(q) ==> #[trigger] m.down_count(q) <= 2
            &&& !v.contains(q) && q == at ==> m.down_count(q) <= 1
            &&& !v.contains(q) && q != at ==> m.down_count(q) == 0
        }
}

impl MazeView {
    /// The walls on the outer edge are as in `before`.
    pub open spec fn same_border(self, before: MazeView) -> bool {
        &&& forall|r: int|
            #![trigger self.hwalls[r]]
            0 <= r < self.height() ==> self.hwalls[r][0] == before.hwalls[r][0] && self.hwalls[r][self.width()]
                == before.hwalls[r][before.width()]
        &&& forall|c: int|
            #![trigger self.vwalls[c]]
            0 <= c < self.width() ==> self.vwalls[c][0] == before.vwalls[c][0] && self.vwalls[c][self.height()]
                == before.vwalls[c][before.height()]
    }
}

/// Taking down the wall of the cell looked up at `(r, c)` towards a direction in which the
/// square area goes on keeps the outer edge; when no cell is found nothing changes.
pub proof fn lemma_inner_open_same_border(m: MazeView, r: usize, c: usize, d: Direction)
    requires
        m.shaped(),
        m.height() == m.width(),
        m.in_range((r as i32) as int, (c as i32) as int) ==> nbr_in(
            (((r as i32) as int) as usize, ((c as i32) as int) as usize),
            d,
            m.width(),
            m.width(),
        ),
    ensures
        m.with_cell_wall(r, c, Some(d), false).same_border(m),
        m.with_cell_wall(r, c, Some(d), false).carved_from(m),
{
    crate::generate::lemma_open_cell_wall_carves(m, r, c, Some(d));
    let ri = (r as i32) as int;
    let ci = (c as i32) as int;
    let m2 = m.with_cell_wall(r, c, Some(d), false);
    if m.in_range(ri, ci) {
        lemma_lookup_placed(m, ri, ci);
        let cell = m.cell(ri, ci);
        lemma_placed_walls(m, cell, d);
        assert(m2 == m.with_wall(wall_toward(cell, d), false));
        assert forall|k: int| 0 <= k < m2.height() implies m2.hwalls[k][0] == m.hwalls[k][0] && m2.hwalls[k][m2.width()]
            == m.hwalls[k][m.width()] by {
            assert(m.hwalls[k].len() == m.width() + 1);
        }
        assert forall|k: int| 0 <= k < m2.width() implies m2.vwalls[k][0] == m.vwalls[k][0] && m2.vwalls[k][m2.height()]
            == m.vwalls[k][m.height()] by {
            assert(m.vwalls[k].len() == m.height() + 1);
        }
    } else {
        assert(m2 == m);
    }
}

pub proof fn lemma_same_border_trans(a: MazeView, b: MazeView, c: MazeView)
    requires
        b.same_border(a),
        c.same_border(b),
        b.height() == a.height(),
        b.width() == a.width(),
        c.height() == b.height(),
        c.width() == b.width(),
    ensures
        c.same_border(a),
{
    assert forall|r: int| 0 <= r < c.height() implies c.hwalls[r][0] == a.hwalls[r][0] && c.hwalls[r][c.width()]
        == a.hwalls[r][a.width()] by {
        assert(b.hwalls[r][0] == a.hwalls[r][0]);
    }
    assert forall|k: int| 0 <= k < c.width() implies c.vwalls[k][0] == a.vwalls[k][0] && c.vwalls[k][c.height()]
        == a.vwalls[k][a.height()] by {
        assert(b.vwalls[k][0] == a.vwalls[k][0]);
    }
}

pub proof fn lemma_same_border_refl(m: MazeView)
    ensures
        m.same_border(m),
{
}

} // verus!
