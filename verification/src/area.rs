use vstd::prelude::*;

use crate::generate::{next_step, next_steps};
use crate::maze::{
    lemma_lookup_placed, lemma_placed_walls, step_col, step_row, wall_toward, Coord, Direction, HorizontalWall,
    MazeView, VerticalWall, Wall,
};

verus! {

/// The position one step from `p` in direction `d`, as `get_next` computes it (on `p`
/// converted to `i32`), when it lies in `0..width` by `0..height`.
pub open spec fn area_step_to(p: Coord, width: usize, height: usize, d: Direction) -> Option<Coord> {
    let x = (p.0 as i32) as int + step_row(d);
    let y = (p.1 as i32) as int + step_col(d);
    if 0 <= x && 0 <= y && y < (height as i32) as int && x < (width as i32) as int {
        Some((x as usize, y as usize))
    } else {
        None
    }
}

/// `get_next` steps from `p` to `q` when nothing has been visited.
pub open spec fn area_step(p: Coord, q: Coord, width: usize, height: usize) -> bool {
    ||| area_step_to(p, width, height, Direction::South) == Some(q)
    ||| area_step_to(p, width, height, Direction::North) == Some(q)
    ||| area_step_to(p, width, height, Direction::East) == Some(q)
    ||| area_step_to(p, width, height, Direction::West) == Some(q)
}

/// `path` goes by steps of `get_next`, and its positions after the first are not in `acc`.
pub open spec fn area_path(acc: Set<Coord>, path: Seq<Coord>, width: usize, height: usize) -> bool {
    &&& path.len() >= 1
    &&& forall|i: int| 0 <= i < path.len() - 1 ==> #[trigger] area_step(path[i], path[i + 1], width, height)
    &&& forall|i: int| 1 <= i < path.len() ==> !acc.contains(#[trigger] path[i])
}

/// A path of `area_path` leads from `start` to `q`.
pub open spec fn area_reaches(acc: Set<Coord>, start: Coord, q: Coord, width: usize, height: usize) -> bool {
    exists|path: Seq<Coord>|
        #[trigger] area_path(acc, path, width, height) && path[0] == start && path.last() == q
}

/// Every step of `get_next` from `p` leads into `v`.
pub open spec fn area_closed(v: Set<Coord>, p: Coord, width: usize, height: usize) -> bool {
    forall|q: Coord| #[trigger] area_step(p, q, width, height) ==> v.contains(q)
}

/// What `next_step` offers is the step of `area_step_to` when its position is not in `acc`.
pub proof fn lemma_next_step_is_area_step(p: Coord, acc: Set<Coord>, width: usize, height: usize, d: Direction)
    ensures
        next_step(p, acc, width, height, d) == (match area_step_to(p, width, height, d) {
            Some(q) => if acc.contains(q) {
                Seq::empty()
            } else {
                seq![(q, d)]
            },
            None => Seq::empty(),
        }),
{
}

/// Each step that `get_next` offers is a step of `area_step`.
pub proof fn lemma_offered_steps(p: Coord, acc: Set<Coord>, width: usize, height: usize)
    ensures
        forall|k: int|
            0 <= k < next_steps(p, acc, width, height).len() ==> area_step(
                p,
                (#[trigger] next_steps(p, acc, width, height)[k]).0,
                width,
                height,
            ),
{
    assert forall|k: int| 0 <= k < next_steps(p, acc, width, height).len() implies area_step(
        p,
        (#[trigger] next_steps(p, acc, width, height)[k]).0,
        width,
        height,
    ) by {
        let (q, d) = next_steps(p, acc, width, height)[k];
        assert(next_step(p, acc, width, height, d) =~= seq![(q, d)]);
        lemma_next_step_is_area_step(p, acc, width, height, d);
    }
}

/// When every step offered from `p` (in any order) leads into `visited`, and the positions in
/// `v0` still are there, every step of `get_next` from `p` leads into `visited`.
pub proof fn lemma_offered_area_closed(
    p: Coord,
    v0: Set<Coord>,
    visited: Set<Coord>,
    offered: Seq<(Coord, Direction)>,
    width: usize,
    height: usize,
)
    requires
        v0.subset_of(visited),
        offered.to_multiset() == next_steps(p, v0, width, height).to_multiset(),
        forall|k: int| 0 <= k < offered.len() ==> visited.contains((#[trigger] offered[k]).0),
    ensures
        area_closed(visited, p, width, height),
{
    let steps = next_steps(p, v0, width, height);
    assert forall|q: Coord| #[trigger] area_step(p, q, width, height) implies visited.contains(q) by {
        if !v0.contains(q) {
            let d = if area_step_to(p, width, height, Direction::South) == Some(q) {
                Direction::South
            } else if area_step_to(p, width, height, Direction::North) == Some(q) {
                Direction::North
            } else if area_step_to(p, width, height, Direction::East) == Some(q) {
                Direction::East
            } else {
                Direction::West
            };
            lemma_next_step_is_area_step(p, v0, width, height, d);
            let a = next_step(p, v0, width, height, Direction::South);
            let b = next_step(p, v0, width, height, Direction::North);
            let c = next_step(p, v0, width, height, Direction::East);
            let e = next_step(p, v0, width, height, Direction::West);
            assert(steps == a + b + c + e);
            let j: int = match d {
                Direction::South => 0,
                Direction::North => a.len() as int,
                Direction::East => (a.len() + b.len()) as int,
                Direction::West => (a.len() + b.len() + c.len()) as int,
            };
            assert(steps[j] == (q, d));
            crate::generate::lemma_same_multiset_member(steps, offered, j);
            let k = choose|k: int| 0 <= k < offered.len() && offered[k] == steps[j];
            assert(visited.contains(offered[k].0));
        }
    }
}

/// A path from `start` whose positions after the first avoid `acc` stays in a set that holds
/// `start` and every step from each of its positions that is `start` or not in `acc`.
pub proof fn lemma_area_reach_closed(
    acc: Set<Coord>,
    start: Coord,
    q: Coord,
    v: Set<Coord>,
    width: usize,
    height: usize,
)
    requires
        area_reaches(acc, start, q, width, height),
        v.contains(start),
        forall|p: Coord|
            #[trigger] v.contains(p) && (p == start || !acc.contains(p)) ==> area_closed(v, p, width, height),
    ensures
        v.contains(q),
{
    let path = choose|path: Seq<Coord>|
        #[trigger] area_path(acc, path, width, height) && path[0] == start && path.last() == q;
    assert forall|i: int| 0 <= i < path.len() implies v.contains(#[trigger] path[i]) by {
        lemma_path_prefix_in(acc, start, path, v, width, height, i);
    }
    assert(v.contains(path[path.len() - 1]));
}

proof fn lemma_path_prefix_in(
    acc: Set<Coord>,
    start: Coord,
    path: Seq<Coord>,
    v: Set<Coord>,
    width: usize,
    height: usize,
    i: int,
)
    requires
        area_path(acc, path, width, height),
        path[0] == start,
        v.contains(start),
        forall|p: Coord|
            #[trigger] v.contains(p) && (p == start || !acc.contains(p)) ==> area_closed(v, p, width, height),
        0 <= i < path.len(),
    ensures
        v.contains(path[i]),
    decreases i,
{
    if i > 0 {
        lemma_path_prefix_in(acc, start, path, v, width, height, i - 1);
        let p = path[i - 1];
        assert(area_step(path[i - 1], path[(i - 1) + 1], width, height));
        if i - 1 >= 1 {
            assert(!acc.contains(path[i - 1]));
        }
        assert(area_closed(v, p, width, height));
    }
}

/// Stepping from `start` to `q` outside `pre` and then along a path from `q` that avoids
/// `pre` is a path from `start` that avoids every part of `pre`.
pub proof fn lemma_area_reach_prepend(
    entry: Set<Coord>,
    pre: Set<Coord>,
    start: Coord,
    q: Coord,
    x: Coord,
    width: usize,
    height: usize,
)
    requires
        entry.subset_of(pre),
        area_step(start, q, width, height),
        !pre.contains(q),
        area_reaches(pre, q, x, width, height),
    ensures
        area_reaches(entry, start, x, width, height),
{
    let path = choose|path: Seq<Coord>|
        #[trigger] area_path(pre, path, width, height) && path[0] == q && path.last() == x;
    let p2 = seq![start] + path;
    assert forall|i: int| 0 <= i < p2.len() - 1 implies #[trigger] area_step(p2[i], p2[i + 1], width, height) by {
        if i > 0 {
            assert(p2[i] == path[i - 1] && p2[i + 1] == path[i]);
            assert(area_step(path[i - 1], path[(i - 1) + 1], width, height));
        } else {
            assert(p2[0] == start && p2[1] == q);
        }
    }
    assert forall|i: int| 1 <= i < p2.len() implies !entry.contains(#[trigger] p2[i]) by {
        assert(p2[i] == path[i - 1]);
    }
    assert(area_path(entry, p2, width, height));
    assert(p2.last() == x);
}

pub proof fn lemma_area_reach_self(acc: Set<Coord>, start: Coord, width: usize, height: usize)
    ensures
        area_reaches(acc, start, start, width, height),
{
    let path = seq![start];
    assert(area_path(acc, path, width, height));
}

/// The state of the recursive carving from `start` that began with `entry` visited: every
/// visited position is in `entry` or reached from `start` by a path avoiding `entry`, and
/// every position visited since, other than `start`, has all its steps visited.
#[verifier::opaque]
pub open spec fn dfs_area_state(entry: Set<Coord>, start: Coord, visited: Set<Coord>, width: usize, height: usize) -> bool {
    &&& forall|q: Coord| #[trigger] visited.contains(q) ==> entry.contains(q) || area_reaches(entry, start, q, width, height)
    &&& forall|p: Coord|
        #[trigger] visited.contains(p) && !entry.contains(p) && p != start ==> area_closed(visited, p, width, height)
}

pub proof fn lemma_area_state_start(entry: Set<Coord>, start: Coord, width: usize, height: usize)
    ensures
        dfs_area_state(entry, start, entry.insert(start), width, height),
{
    reveal(dfs_area_state);
    lemma_area_reach_self(entry, start, width, height);
}

/// After a nested carving from `q`, a step from `start`, that visited `post`, the state holds
/// of `post`.
pub proof fn lemma_area_state_merge(
    entry: Set<Coord>,
    start: Coord,
    q: Coord,
    pre: Set<Coord>,
    post: Set<Coord>,
    width: usize,
    height: usize,
)
    requires
        dfs_area_state(entry, start, pre, width, height),
        entry.subset_of(pre),
        pre.subset_of(post),
        area_step(start, q, width, height),
        !pre.contains(q),
        forall|x: Coord| #[trigger] post.contains(x) ==> pre.contains(x) || area_reaches(pre, q, x, width, height),
        forall|p: Coord|
            #[trigger] post.contains(p) && (p == q || !pre.contains(p)) ==> area_closed(post, p, width, height),
    ensures
        dfs_area_state(entry, start, post, width, height),
{
    reveal(dfs_area_state);
    assert forall|x: Coord| #[trigger] post.contains(x) implies entry.contains(x) || area_reaches(entry, start, x, width, height) by {
        if !pre.contains(x) {
            lemma_area_reach_prepend(entry, pre, start, q, x, width, height);
        }
    }
    assert forall|p: Coord|
        #[trigger] post.contains(p) && !entry.contains(p) && p != start implies area_closed(post, p, width, height) by {
        if pre.contains(p) {
            assert(area_closed(pre, p, width, height));
        }
    }
}

/// Once every step from `start` is visited, the visited positions are exactly `entry` and the
/// positions reached from `start` avoiding `entry`, and each visited position that is `start`
/// or not in `entry` has all its steps visited.
pub proof fn lemma_area_state_close(entry: Set<Coord>, start: Coord, visited: Set<Coord>, width: usize, height: usize)
    requires
        dfs_area_state(entry, start, visited, width, height),
        entry.subset_of(visited),
        visited.contains(start),
        area_closed(visited, start, width, height),
    ensures
        forall|q: Coord| #[trigger] visited.contains(q) <==> entry.contains(q) || area_reaches(entry, start, q, width, height),
        forall|p: Coord|
            #[trigger] visited.contains(p) && (p == start || !entry.contains(p)) ==> area_closed(visited, p, width, height),
{
    reveal(dfs_area_state);
    assert forall|p: Coord|
        #[trigger] visited.contains(p) && (p == start || !entry.contains(p)) implies area_closed(visited, p, width, height) by {
    }
    assert forall|q: Coord| entry.contains(q) || area_reaches(entry, start, q, width, height) implies #[trigger] visited.contains(q) by {
        if !entry.contains(q) {
            lemma_area_reach_closed(entry, start, q, visited, width, height);
        }
    }
}

/// `w` is the wall on side `d` of the cell of `before` at position `p`, and the area has a
/// step from `p` in direction `d`.
pub open spec fn offered_wall(before: MazeView, p: Coord, d: Direction, width: usize, height: usize, w: Wall) -> bool {
    &&& area_step_to(p, width, height, d) is Some
    &&& before.lookup((p.0 as i32) as int, (p.1 as i32) as int) matches Some(cell) && wall_toward(cell, d) == w
}

/// Some position and direction of the area offer `w`.
pub open spec fn wall_offered(before: MazeView, w: Wall, width: usize, height: usize) -> bool {
    exists|p: Coord, d: Direction| #[trigger] offered_wall(before, p, d, width, height, w)
}

/// Every wall of `m` that differs from `before` is the wall on the side of a step that the
/// `width` by `height` area offers from the position of a cell.
pub open spec fn opened_from_area(before: MazeView, m: MazeView, width: usize, height: usize) -> bool {
    &&& forall|r: int, k: int|
        0 <= r < m.height() && 0 <= k <= m.width() && #[trigger] m.hwalls[r][k] != before.hwalls[r][k]
            ==> wall_offered(before, Wall::HorizontalWall(HorizontalWall { coord: (r as usize, k as usize) }), width, height)
    &&& forall|c: int, r: int|
        0 <= c < m.width() && 0 <= r <= m.height() && #[trigger] m.vwalls[c][r] != before.vwalls[c][r]
            ==> wall_offered(before, Wall::VerticalWall(VerticalWall { coord: (r as usize, c as usize) }), width, height)
}

/// Taking down the wall on side `d` of the cell at `p`, where the area offers a step from `p`
/// in direction `d`, keeps `opened_from_area`.
pub proof fn lemma_opened_from_area_step(
    before: MazeView,
    m: MazeView,
    p: Coord,
    d: Direction,
    width: usize,
    height: usize,
)
    requires
        opened_from_area(before, m, width, height),
        m.shaped(),
        m.height() == before.height(),
        m.width() == before.width(),
        m.cost == before.cost,
        area_step_to(p, width, height, d) is Some,
    ensures
        opened_from_area(before, m.with_cell_wall(p.0, p.1, Some(d), false), width, height),
{
    let m2 = m.with_cell_wall(p.0, p.1, Some(d), false);
    let ri = (p.0 as i32) as int;
    let ci = (p.1 as i32) as int;
    if m.in_range(ri, ci) {
        lemma_lookup_placed(m, ri, ci);
        let cell = m.cell(ri, ci);
        lemma_placed_walls(m, cell, d);
        let w = wall_toward(cell, d);
        assert(m2 == m.with_wall(w, false));
        assert(before.lookup(ri, ci) == Some(cell));
        assert(offered_wall(before, p, d, width, height, w));
        match w {
            Wall::HorizontalWall(hw) => {
                let (r0, k0) = (hw.coord.0 as int, hw.coord.1 as int);
                assert(m2.vwalls == m.vwalls);
                assert forall|r: int, k: int|
                    0 <= r < m2.height() && 0 <= k <= m2.width() && #[trigger] m2.hwalls[r][k] != before.hwalls[r][k]
                        implies wall_offered(before, Wall::HorizontalWall(HorizontalWall { coord: (r as usize, k as usize) }), width, height) by {
                    if r == r0 && k == k0 {
                        assert(Wall::HorizontalWall(HorizontalWall { coord: (r as usize, k as usize) }) == w);
                    } else {
                        assert(m.hwalls[r].len() == m.width() + 1);
                        assert(m2.hwalls[r][k] == m.hwalls[r][k]);
                    }
                }
                assert forall|c: int, r: int|
                    0 <= c < m2.width() && 0 <= r <= m2.height() && #[trigger] m2.vwalls[c][r] != before.vwalls[c][r]
                        implies wall_offered(before, Wall::VerticalWall(VerticalWall { coord: (r as usize, c as usize) }), width, height) by {
                    assert(m.vwalls[c][r] != before.vwalls[c][r]);
                }
            },
            Wall::VerticalWall(vw) => {
                let (r0, c0) = (vw.coord.0 as int, vw.coord.1 as int);
                assert(m2.hwalls == m.hwalls);
                assert forall|r: int, k: int|
                    0 <= r < m2.height() && 0 <= k <= m2.width() && #[trigger] m2.hwalls[r][k] != before.hwalls[r][k]
                        implies wall_offered(before, Wall::HorizontalWall(HorizontalWall { coord: (r as usize, k as usize) }), width, height) by {
                    assert(m.hwalls[r][k] != before.hwalls[r][k]);
                }
                assert forall|c: int, r: int|
                    0 <= c < m2.width() && 0 <= r <= m2.height() && #[trigger] m2.vwalls[c][r] != before.vwalls[c][r]
                        implies wall_offered(before, Wall::VerticalWall(VerticalWall { coord: (r as usize, c as usize) }), width, height) by {
                    if r == r0 && c == c0 {
                        assert(Wall::VerticalWall(VerticalWall { coord: (r as usize, c as usize) }) == w);
                    } else {
                        assert(m.vwalls[c].len() == m.height() + 1);
                        assert(m2.vwalls[c][r] == m.vwalls[c][r]);
                    }
                }
            },
        }
    } else {
        assert(m2 == m);
    }
}

pub proof fn lemma_opened_from_area_start(before: MazeView, width: usize, height: usize)
    ensures
        opened_from_area(before, before, width, height),
{
}

/// Two rounds of opening offered walls are one.
pub proof fn lemma_opened_from_area_trans(
    a: MazeView,
    b: MazeView,
    c: MazeView,
    width: usize,
    height: usize,
)
    requires
        opened_from_area(a, b, width, height),
        opened_from_area(b, c, width, height),
        b.hwalls.len() == a.hwalls.len(),
        b.vwalls.len() == a.vwalls.len(),
        c.hwalls.len() == a.hwalls.len(),
        c.vwalls.len() == a.vwalls.len(),
        b.cost == a.cost,
    ensures
        opened_from_area(a, c, width, height),
{
    assert(forall|r: int, cc: int| #[trigger] b.lookup(r, cc) == a.lookup(r, cc));
    assert forall|w: Wall| #[trigger] wall_offered(b, w, width, height) implies wall_offered(a, w, width, height) by {
        let (p, d) = choose|p: Coord, d: Direction| #[trigger] offered_wall(b, p, d, width, height, w);
        assert(offered_wall(a, p, d, width, height, w));
    }
    assert forall|r: int, k: int|
        0 <= r < c.height() && 0 <= k <= c.width() && #[trigger] c.hwalls[r][k] != a.hwalls[r][k]
            implies wall_offered(a, Wall::HorizontalWall(HorizontalWall { coord: (r as usize, k as usize) }), width, height) by {
        if b.hwalls[r][k] != a.hwalls[r][k] {
        } else {
            assert(c.hwalls[r][k] != b.hwalls[r][k]);
        }
    }
    assert forall|cc: int, r: int|
        0 <= cc < c.width() && 0 <= r <= c.height() && #[trigger] c.vwalls[cc][r] != a.vwalls[cc][r]
            implies wall_offered(a, Wall::VerticalWall(VerticalWall { coord: (r as usize, cc as usize) }), width, height) by {
        if b.vwalls[cc][r] != a.vwalls[cc][r] {
        } else {
            assert(c.vwalls[cc][r] != b.vwalls[cc][r]);
        }
    }
}

} // verus!
