use vstd::prelude::*;

use crate::connect::{connected, everywhere, square_with};
use crate::generate::steppable;
use crate::farthest::first_farthest;
use crate::maze::{Coord, Direction, Maze, MazeView};
use crate::paths::lemma_step_symmetric;
use crate::search::{lemma_unvisited_neighbors, unknown_cost};

verus! {

/// `rows` rows of `cols` entries that are all `true`.
pub open spec fn all_standing(rows: int, cols: int) -> Seq<Seq<bool>> {
    Seq::new(rows as nat, |r: int| Seq::new(cols as nat, |c: int| true))
}

/// `rows` rows of `cols` unknown costs.
pub open spec fn all_unknown(rows: int, cols: int) -> Seq<Seq<Option<usize>>> {
    Seq::new(rows as nat, |r: int| Seq::new(cols as nat, |c: int| None))
}

impl MazeView {
    /// The maze with every cost unknown.
    pub open spec fn without_costs(self) -> MazeView {
        MazeView { cost: all_unknown(self.height(), self.width()), ..self }
    }
}

/// A grid of `rows` rows of `cols` standing walls.
fn standing_walls(rows: usize, cols: usize) -> (res: Vec<Vec<bool>>)
    ensures
        res@.map_values(|row: Vec<bool>| row@) == all_standing(rows as int, cols as int),
{
    let mut res: Vec<Vec<bool>> = Vec::new();
    let mut r: usize = 0;
    while r < rows
        invariant
            r <= rows,
            res@.len() == r,
            forall|k: int| 0 <= k < r ==> (#[trigger] res@[k])@ == Seq::new(cols as nat, |c: int| true),
        decreases rows - r,
    {
        let mut row: Vec<bool> = Vec::new();
        let mut c: usize = 0;
        while c < cols
            invariant
                c <= cols,
                row@ == Seq::new(c as nat, |k: int| true),
            decreases cols - c,
        {
            row.push(true);
            c = c + 1;
            assert(row@ =~= Seq::new(c as nat, |k: int| true));
        }
        res.push(row);
        r = r + 1;
    }
    assert(res@.map_values(|row: Vec<bool>| row@) =~= all_standing(rows as int, cols as int));
    res
}

/// A grid of `rows` rows of `cols` unknown costs.
fn unknown_costs(rows: usize, cols: usize) -> (res: Vec<Vec<Option<usize>>>)
    ensures
        res@.map_values(|row: Vec<Option<usize>>| row@) == all_unknown(rows as int, cols as int),
{
    let mut res: Vec<Vec<Option<usize>>> = Vec::new();
    let mut r: usize = 0;
    while r < rows
        invariant
            r <= rows,
            res@.len() == r,
            forall|k: int| 0 <= k < r ==> (#[trigger] res@[k])@ == Seq::new(cols as nat, |c: int| None::<usize>),
        decreases rows - r,
    {
        let mut row: Vec<Option<usize>> = Vec::new();
        let mut c: usize = 0;
        while c < cols
            invariant
                c <= cols,
                row@ == Seq::new(c as nat, |k: int| None::<usize>),
            decreases cols - c,
        {
            row.push(None);
            c = c + 1;
            assert(row@ =~= Seq::new(c as nat, |k: int| None::<usize>));
        }
        res.push(row);
        r = r + 1;
    }
    assert(res@.map_values(|row: Vec<Option<usize>>| row@) =~= all_unknown(rows as int, cols as int));
    res
}

/// In a shaped maze with every cost unknown, a walk through any coordinates is a walk through
/// cells of unknown cost.
pub proof fn lemma_walk_unknown(m: MazeView, w: Seq<Coord>)
    requires
        m.shaped(),
        m.cost == all_unknown(m.height(), m.width()),
        m.is_walk(everywhere(), w),
    ensures
        m.is_walk(unknown_cost(m.cost), w),
{
    assert forall|i: int| 1 <= i < w.len() implies (unknown_cost(m.cost))(#[trigger] w[i]) by {
        lemma_unvisited_neighbors(m, w[i - 1]);
        assert(m.is_step(w[i - 1], w[i]));
    }
}

/// No step leads from a coordinate to itself.
pub proof fn lemma_no_self_step(m: MazeView, p: Coord)
    requires
        p.0 <= i32::MAX,
        p.1 <= i32::MAX,
    ensures
        !m.is_step(p, p),
{
}

/// In a square maze where every cell is connected to the start, filling the costs reaches
/// every cell but the start.
pub proof fn lemma_square_costs_others(carved: MazeView, res: MazeView, n: int, start: Coord)
    requires
        square_with(carved, n, start),
        carved.cost == all_unknown(n, n),
        carved.start == start,
        forall|q: Coord| q.0 < n && q.1 < n ==> #[trigger] connected(carved, start, q),
        res.costs_filled_from(carved),
    ensures
        forall|q: Coord| q.0 < n && q.1 < n && q != start ==> #[trigger] res.cost_at(q) is Some,
{
    let allowed = unknown_cost(carved.cost);
    assert forall|q: Coord| q.0 < n && q.1 < n && q != start implies #[trigger] res.cost_at(q) is Some by {
        assert(connected(carved, start, q));
        let k = choose|k: nat| k >= 1 && #[trigger] carved.reach(everywhere(), start, q, k);
        let w = choose|w: Seq<Coord>|
            #[trigger] carved.is_walk(everywhere(), w) && w.len() == k + 1 && w[0] == start && w[k as int] == q;
        lemma_walk_unknown(carved, w);
        assert(carved.reach(allowed, start, q, k));
        assert(carved.in_grid(q));
        assert(carved.cost_at(q) is None);
    }
}

/// A cell with an open neighbour is reached back in two steps and no fewer.
#[verifier::rlimit(30)]
pub proof fn lemma_back_in_two(carved: MazeView, n: int, start: Coord, y: Coord)
    requires
        square_with(carved, n, start),
        carved.cost == all_unknown(n, n),
        carved.is_step(start, y),
    ensures
        carved.is_dist(unknown_cost(carved.cost), start, start, 2),
{
    let allowed = unknown_cost(carved.cost);
    assert((start.0 as i32) as int == start.0);
    assert((start.1 as i32) as int == start.1);
    assert(carved.in_range(start.0 as int, start.1 as int));
    let d = if carved.succ(start, Direction::South) == Some(y) {
        Direction::South
    } else if carved.succ(start, Direction::West) == Some(y) {
        Direction::West
    } else if carved.succ(start, Direction::North) == Some(y) {
        Direction::North
    } else {
        Direction::East
    };
    lemma_step_symmetric(carved, start, d, y);
    assert(carved.is_step(y, start));
    lemma_unvisited_neighbors(carved, start);
    lemma_unvisited_neighbors(carved, y);
    let back = seq![start, y, start];
    assert(carved.is_walk(allowed, back));
    assert(back[2] == start);
    assert(carved.reach(allowed, start, start, 2));
    assert(!carved.reach(allowed, start, start, 1)) by {
        if carved.reach(allowed, start, start, 1) {
            let w1 = choose|w1: Seq<Coord>|
                #[trigger] carved.is_walk(allowed, w1) && w1.len() == 2 && w1[0] == start && w1[1] == start;
            assert(carved.is_step(w1[0], w1[1]));
            lemma_no_self_step(carved, start);
        }
    }
}

/// In a square maze of more than one cell where every cell is connected to the start, filling
/// the costs gives the start 2.
pub proof fn lemma_square_cost_start(carved: MazeView, res: MazeView, n: int, start: Coord)
    requires
        square_with(carved, n, start),
        n >= 2,
        carved.cost == all_unknown(n, n),
        carved.start == start,
        forall|q: Coord| q.0 < n && q.1 < n ==> #[trigger] connected(carved, start, q),
        res.costs_filled_from(carved),
    ensures
        res.cost_at(start) == Some(2usize),
{
    let allowed = unknown_cost(carved.cost);
    let q: Coord = if start.0 == 0 { (1, start.1) } else { (0, start.1) };
    assert(connected(carved, start, q));
    let k = choose|k: nat| k >= 1 && #[trigger] carved.reach(everywhere(), start, q, k);
    let w = choose|w: Seq<Coord>|
        #[trigger] carved.is_walk(everywhere(), w) && w.len() == k + 1 && w[0] == start && w[k as int] == q;
    assert(carved.is_step(w[0], w[1]));
    lemma_back_in_two(carved, n, start, w[1]);
    assert(carved.in_grid(start));
    assert(carved.cost_at(start) is None);
    assert(carved.reach(allowed, start, start, 2));
    assert(carved.reachable(allowed, start, start));
    let v = res.cost_at(start).unwrap();
    crate::paths::lemma_dist_unique(carved, allowed, start, start, v as nat, 2);
}

impl Maze {
    /// A `width` by `height` maze carved by a depth-first walk from `start`, with `end` a cell
    /// farthest from `start` and every cell's cost its distance from `start`.
    pub fn new(width: usize, height: usize, start: Coord) -> (res: Self)
        requires
            0 < width < usize::MAX,
            0 < height < usize::MAX,
            width * height <= usize::MAX,
            steppable(start),
        ensures
            res@.shaped(),
            res@.width() == width,
            res@.height() == height,
            res@.start == start,
            res@.without_costs().farthest_from(start, res@.end),
            res@.costs_filled_from(res@.without_costs()),
            width == height && width <= i32::MAX && start.0 < width && start.1 < width ==> forall|
                q: Coord,
            | q.0 < width && q.1 < width && q != start ==> #[trigger] res@.cost_at(q) is Some,
            width == height && 2 <= width <= i32::MAX && start.0 < width && start.1 < width
                ==> res@.cost_at(start) == Some(2usize),
            width == height && width <= i32::MAX && start.0 < width && start.1 < width
                ==> res@.boundary_standing() && res@.open_walls() + 1 == width * width,
            width == height ==> res@.boundary_standing(),
            res@.open_walls() <= width * height,
            res@.end == first_farthest(res@, start),
    {
        assert(height * width == width * height) by (nonlinear_arith);
        let mut result = Maze {
            start: start,
            end: (0, 0),
            horizontal_walls: standing_walls(height, width + 1),
            vertical_walls: standing_walls(width, height + 1),
            cost: unknown_costs(height, width),
        };
        proof {
            assert(result@.hwalls == all_standing(height as int, width + 1));
            assert(result@.vwalls == all_standing(width as int, height + 1));
            assert(result@.cost == all_unknown(height as int, width as int));
            assert(result@.shaped());
        }
        let ghost fresh = result@;
        result.generate_maze_via_dfs_heap(start, width, height);
        proof {
            if width == height && width <= i32::MAX && start.0 < width && start.1 < width {
                assert(square_with(fresh, width as int, start));
                assert(fresh.boundary_standing());
                assert(fresh.all_walls_standing());
                assert forall|q: Coord| q.0 < width && q.1 < width implies #[trigger] connected(result@, start, q) by {}
            }
            crate::spanning::lemma_all_standing_none_open(fresh);
            if width == height {
                assert(fresh.boundary_standing());
                assert(result@.boundary_standing()) by {
                    assert forall|r: int| 0 <= r < result@.height() implies result@.hwalls[r][0]
                        && result@.hwalls[r][result@.width()] by {
                        assert(fresh.hwalls[r][0] && fresh.hwalls[r][fresh.width()]);
                    }
                    assert forall|c: int| 0 <= c < result@.width() implies result@.vwalls[c][0]
                        && result@.vwalls[c][result@.height()] by {
                        assert(fresh.vwalls[c][0] && fresh.vwalls[c][fresh.height()]);
                    }
                }
            }
        }
        let ghost dug = result@;
        assert(result@.height() == height && result@.width() == width);
        let ghost searched = result@;
        let end = result.find_farthest_point(&start, width, height);
        result.end = end;
        let ghost carved = result@;
        result.fill_cost();
        proof {
            assert(result@.hwalls == dug.hwalls && result@.vwalls == dug.vwalls);
            assert(carved.cost == all_unknown(height as int, width as int));
            assert(carved.without_costs() =~= carved);
            assert(result@.without_costs() =~= carved);
            crate::paths::lemma_farthest_same_walls(searched, carved, start, end);
            crate::farthest::lemma_search_run_same_walls(
                searched,
                result@,
                seq![(start, 0usize)],
                set![start],
                start,
                0,
                (searched.height() * searched.width() + 1) as nat,
            );
            if width == height && width <= i32::MAX && start.0 < width && start.1 < width {
                assert forall|q: Coord| q.0 < width && q.1 < width implies #[trigger] connected(carved, start, q) by {
                    assert(connected(dug, start, q));
                    crate::connect::lemma_connected_same_walls(dug, carved, start, q);
                }
                assert(result@.hwalls == dug.hwalls && result@.vwalls == dug.vwalls);
                lemma_square_costs_others(carved, result@, width as int, start);
                if width >= 2 {
                    lemma_square_cost_start(carved, result@, width as int, start);
                }
            }
        }
        result
    }
}

} // verus!
