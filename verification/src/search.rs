use vstd::prelude::*;
use std::collections::VecDeque;

use crate::maze::{MazeCell, unvisited_cell, lemma_lookup_placed, lemma_shaped_covers, Coord, Direction, Maze, MazeView};
use crate::paths::{
    closed_except, complete_to, descending, entries_exact, lemma_add_entry,
    lemma_closed_contains_reachable, lemma_entry_done, lemma_reach_extend, lemma_marks_grow, lemma_step_same_walls,
    lemma_take_entry, queued, source_closed,
};

verus! {

broadcast use vstd::std_specs::vecdeque::group_vec_dequeue_axioms;

/// Number of unknown costs in a row.
pub open spec fn unknown_in_row(s: Seq<Option<usize>>) -> nat
    decreases s.len(),
{
    if s.len() == 0 {
        0
    } else {
        unknown_in_row(s.drop_last()) + if s.last() is None {
            1nat
        } else {
            0nat
        }
    }
}

/// Number of unknown costs in a grid.
pub open spec fn unknown_in_grid(g: Seq<Seq<Option<usize>>>) -> nat
    decreases g.len(),
{
    if g.len() == 0 {
        0
    } else {
        unknown_in_grid(g.drop_last()) + unknown_in_row(g.last())
    }
}

pub proof fn lemma_unknown_in_row_set(s: Seq<Option<usize>>, c: int, v: usize)
    requires
        0 <= c < s.len(),
        s[c] is None,
    ensures
        unknown_in_row(s.update(c, Some(v))) + 1 == unknown_in_row(s),
    decreases s.len(),
{
    let t = s.update(c, Some(v));
    if c == s.len() - 1 {
        assert(t.drop_last() =~= s.drop_last());
    } else {
        assert(t.drop_last() =~= s.drop_last().update(c, Some(v)));
        lemma_unknown_in_row_set(s.drop_last(), c, v);
    }
}

pub proof fn lemma_unknown_in_grid_set(g: Seq<Seq<Option<usize>>>, r: int, c: int, v: usize)
    requires
        0 <= r < g.len(),
        0 <= c < g[r].len(),
        g[r][c] is None,
    ensures
        unknown_in_grid(g.update(r, g[r].update(c, Some(v)))) + 1 == unknown_in_grid(g),
    decreases g.len(),
{
    let t = g.update(r, g[r].update(c, Some(v)));
    if r == g.len() - 1 {
        assert(t.drop_last() =~= g.drop_last());
        lemma_unknown_in_row_set(g[r], c, v);
    } else {
        assert(t.drop_last() =~= g.drop_last().update(r, g[r].update(c, Some(v))));
        lemma_unknown_in_grid_set(g.drop_last(), r, c, v);
    }
}

pub proof fn lemma_unknown_in_row_bound(s: Seq<Option<usize>>)
    ensures
        unknown_in_row(s) <= s.len(),
    decreases s.len(),
{
    if s.len() > 0 {
        lemma_unknown_in_row_bound(s.drop_last());
    }
}

pub proof fn lemma_unknown_in_grid_bound(g: Seq<Seq<Option<usize>>>, w: int)
    requires
        forall|r: int| 0 <= r < g.len() ==> #[trigger] g[r].len() == w,
    ensures
        unknown_in_grid(g) <= g.len() * w,
    decreases g.len(),
{
    if g.len() > 0 {
        lemma_unknown_in_grid_bound(g.drop_last(), w);
        lemma_unknown_in_row_bound(g.last());
        assert((g.len() - 1) * w + w == g.len() * w) by (nonlinear_arith);
    }
}

/// The cells whose cost is not known: the cells that a search through `cost` may enter.
pub open spec fn unknown_cost(cost: Seq<Seq<Option<usize>>>) -> spec_fn(Coord) -> bool {
    |p: Coord| (p.0 as int) < cost.len() && (p.1 as int) < cost[p.0 as int].len() && cost[p.0 as int][p.1 as int] is None
}

impl MazeView {
    /// The coordinate lies in the grid of cells.
    pub open spec fn in_grid(self, p: Coord) -> bool {
        p.0 < self.height() && p.1 < self.width()
    }

    /// The cost recorded for an in-grid coordinate.
    pub open spec fn cost_at(self, p: Coord) -> Option<usize> {
        self.cost[p.0 as int][p.1 as int]
    }

    /// What `fill_cost` makes of the costs of `before`: a cell whose cost was known keeps it; a
    /// cell whose cost was unknown gets the least number of steps, at least one, of a walk from
    /// the start through cells of unknown cost, or stays unknown when there is no such walk.
    pub open spec fn costs_filled_from(self, before: MazeView) -> bool {
        forall|p: Coord|
            #![trigger self.cost_at(p)]
            before.in_grid(p) ==> {
                &&& before.cost_at(p) is Some ==> self.cost_at(p) == before.cost_at(p)
                &&& before.cost_at(p) is None ==> (self.cost_at(p) is Some <==> before.reachable(
                    unknown_cost(before.cost),
                    before.start,
                    p,
                ))
                &&& before.cost_at(p) is None ==> (self.cost_at(p) matches Some(k) ==> before.is_dist(
                    unknown_cost(before.cost),
                    before.start,
                    p,
                    k as nat,
                ))
            }
    }
}

/// The steps that the search takes from `p` lead into the grid, and the cells that
/// `get_valid_adjascent_cells` returns for `p` are exactly the step targets of unknown cost,
/// each once.
pub proof fn lemma_unvisited_neighbors(m: MazeView, p: Coord)
    requires
        m.shaped(),
    ensures
        forall|q: Coord| #[trigger] m.is_step(p, q) ==> m.in_grid(q),
        forall|i: int|
            0 <= i < m.unvisited_neighbors(p.0, p.1).len() ==> {
                let x = #[trigger] m.unvisited_neighbors(p.0, p.1)[i];
                &&& m.in_grid(x.coord)
                &&& m.is_step(p, x.coord)
                &&& m.cost_at(x.coord) is None
            },
        forall|q: Coord|
            m.is_step(p, q) && #[trigger] m.cost_at(q) is None ==> exists|i: int|
                0 <= i < m.unvisited_neighbors(p.0, p.1).len() && m.unvisited_neighbors(p.0, p.1)[i].coord
                    == q,
        forall|i: int, j: int|
            0 <= i < j < m.unvisited_neighbors(p.0, p.1).len() ==> m.unvisited_neighbors(p.0, p.1)[i].coord
                != m.unvisited_neighbors(p.0, p.1)[j].coord,
{
    let r = (p.0 as i32) as int;
    let c = (p.1 as i32) as int;
    lemma_shaped_covers(m);
    if m.in_range(r, c) {
        lemma_lookup_placed(m, r, c);
        if m.in_range(r + 1, c) {
            lemma_lookup_placed(m, r + 1, c);
        }
        if m.in_range(r - 1, c) {
            lemma_lookup_placed(m, r - 1, c);
        }
        if m.in_range(r, c + 1) {
            lemma_lookup_placed(m, r, c + 1);
        }
        if m.in_range(r, c - 1) {
            lemma_lookup_placed(m, r, c - 1);
        }
        let cell = m.cell(r, c);
        let a = unvisited_cell(m.neighbor(cell, Direction::South));
        let b = unvisited_cell(m.neighbor(cell, Direction::West));
        let n = unvisited_cell(m.neighbor(cell, Direction::North));
        let e = unvisited_cell(m.neighbor(cell, Direction::East));
        let nb = m.unvisited_neighbors(p.0, p.1);
        assert(nb == a + b + n + e);
        assert forall|q: Coord| m.is_step(p, q) && #[trigger] m.cost_at(q) is None implies exists|i: int|
            0 <= i < nb.len() && nb[i].coord == q by {
            if m.succ(p, Direction::South) == Some(q) {
                assert(nb[0].coord == q);
            } else if m.succ(p, Direction::West) == Some(q) {
                assert(nb[a.len() as int].coord == q);
            } else if m.succ(p, Direction::North) == Some(q) {
                assert(nb[(a.len() + b.len()) as int].coord == q);
            } else {
                assert(nb[(a.len() + b.len() + n.len()) as int].coord == q);
            }
        }
    }
}


impl MazeView {
    /// `p` got its cost during a search that started from `before`.
    pub open spec fn newly_costed(self, before: MazeView, p: Coord) -> bool {
        &&& before.in_grid(p)
        &&& before.cost_at(p) is None
        &&& self.cost_at(p) is Some
    }
}

/// The view of a maze after one cost was set.
pub proof fn lemma_cost_set(m: MazeView, n: MazeView, y: Coord, v: usize)
    requires
        m.shaped(),
        m.in_grid(y),
        n.hwalls == m.hwalls,
        n.vwalls == m.vwalls,
        n.start == m.start,
        n.end == m.end,
        n.cost == m.cost.update(y.0 as int, m.cost[y.0 as int].update(y.1 as int, Some(v))),
    ensures
        n.shaped(),
        n.same_walls(m),
        n.cost_at(y) == Some(v),
        forall|q: Coord| #[trigger] n.cost_at(q) != m.cost_at(q) ==> q == y || !m.in_grid(q),
{
    assert forall|r: int| 0 <= r < n.height() implies #[trigger] n.cost[r].len() == n.width() by {
        assert(m.cost[r].len() == m.width());
    }
    assert forall|q: Coord| #[trigger] n.cost_at(q) != m.cost_at(q) implies q == y || !m.in_grid(q) by {
        if m.in_grid(q) && q != y {
            if q.0 == y.0 {
                assert(q.1 != y.1);
            }
        }
    }
}

/// The coordinates that got a cost during a search from `before`.
pub open spec fn costed_marks(m: MazeView, before: MazeView) -> spec_fn(Coord) -> bool {
    |q: Coord| m.newly_costed(before, q)
}

/// Costs known in `before` are kept.
#[verifier::opaque]
pub open spec fn known_kept(m: MazeView, before: MazeView) -> bool {
    forall|p: Coord|
        before.in_grid(p) && before.cost_at(p) is Some ==> #[trigger] m.cost_at(p) == before.cost_at(p)
}

/// Each cost found is the distance of its cell.
#[verifier::opaque]
pub open spec fn costs_exact(m: MazeView, before: MazeView, allowed: spec_fn(Coord) -> bool) -> bool {
    forall|q: Coord|
        #[trigger] m.newly_costed(before, q) ==> (m.cost_at(q) matches Some(k) && before.is_dist(
            allowed,
            before.start,
            q,
            k as nat,
        ))
}

/// The steps of the entries are bounded by `n`.
#[verifier::opaque]
pub open spec fn entries_bounded(queue: Seq<(Coord, usize)>, n: nat) -> bool {
    forall|i: int| 0 <= i < queue.len() ==> (#[trigger] queue[i]).1 <= n
}

/// Setting the unknown cost of `y` to `v`, which is its distance.
pub proof fn lemma_record_cost(
    before: MazeView,
    allowed: spec_fn(Coord) -> bool,
    mid: MazeView,
    n: MazeView,
    y: Coord,
    v: usize,
)
    requires
        allowed == unknown_cost(before.cost),
        before.shaped(),
        mid.shaped(),
        mid.same_walls(before),
        mid.height() == before.height(),
        mid.width() == before.width(),
        known_kept(mid, before),
        costs_exact(mid, before, allowed),
        before.in_grid(y),
        mid.cost_at(y) is None,
        before.is_dist(allowed, before.start, y, v as nat),
        n.hwalls == mid.hwalls,
        n.vwalls == mid.vwalls,
        n.start == mid.start,
        n.end == mid.end,
        n.cost == mid.cost.update(y.0 as int, mid.cost[y.0 as int].update(y.1 as int, Some(v))),
    ensures
        n.shaped(),
        n.same_walls(before),
        known_kept(n, before),
        costs_exact(n, before, allowed),
        n.newly_costed(before, y),
        !mid.newly_costed(before, y),
        forall|q: Coord| q != y ==> #[trigger] costed_marks(n, before)(q) == costed_marks(mid, before)(q),
        unknown_in_grid(n.cost) + 1 == unknown_in_grid(mid.cost),
{
    reveal(known_kept);
    reveal(costs_exact);
    lemma_cost_set(mid, n, y, v);
    lemma_unknown_in_grid_set(mid.cost, y.0 as int, y.1 as int, v);
    assert(before.cost_at(y) is None);
    assert forall|q: Coord| q != y implies #[trigger] costed_marks(n, before)(q) == costed_marks(mid, before)(q) by {
        if before.in_grid(q) {
            assert(n.cost_at(q) == mid.cost_at(q));
        }
    }
    assert forall|q: Coord| #[trigger] n.newly_costed(before, q) implies (n.cost_at(q) matches Some(k) && before.is_dist(
            allowed,
            before.start,
            q,
            k as nat,
        )) by {
        if q != y {
            assert(n.cost_at(q) == mid.cost_at(q));
            assert(mid.newly_costed(before, q));
        }
    }
    assert forall|p: Coord| before.in_grid(p) && before.cost_at(p) is Some implies #[trigger] n.cost_at(p) == before.cost_at(p) by {
        assert(mid.cost_at(p) == before.cost_at(p));
        assert(p != y);
    }
}

/// When the search has closed every marked cell, the costs are those `fill_cost` promises.
pub proof fn lemma_fill_result(before: MazeView, allowed: spec_fn(Coord) -> bool, m: MazeView)
    requires
        allowed == unknown_cost(before.cost),
        before.shaped(),
        m.shaped(),
        m.height() == before.height(),
        m.width() == before.width(),
        known_kept(m, before),
        costs_exact(m, before, allowed),
        source_closed(before, allowed, before.start, costed_marks(m, before)),
        closed_except(before, allowed, costed_marks(m, before), Seq::empty(), None),
    ensures
        m.costs_filled_from(before),
{
    reveal(known_kept);
    reveal(costs_exact);
    reveal(source_closed);
    reveal(closed_except);
    let marked = costed_marks(m, before);
    assert forall|p: Coord| #![trigger m.cost_at(p)] before.in_grid(p) implies {
        &&& before.cost_at(p) is Some ==> m.cost_at(p) == before.cost_at(p)
        &&& before.cost_at(p) is None ==> (m.cost_at(p) is Some <==> before.reachable(allowed, before.start, p))
        &&& before.cost_at(p) is None ==> (m.cost_at(p) matches Some(k) ==> before.is_dist(
            allowed,
            before.start,
            p,
            k as nat,
        ))
    } by {
        if before.cost_at(p) is None {
            if m.cost_at(p) is Some {
                assert(m.newly_costed(before, p));
                let k = m.cost_at(p).unwrap();
                assert(before.reach(allowed, before.start, p, k as nat));
            }
            if before.reachable(allowed, before.start, p) {
                let k = choose|k: nat| k >= 1 && #[trigger] before.reach(allowed, before.start, p, k);
                assert forall|a: Coord, b: Coord| #[trigger] marked(a) && before.is_step(a, b) && allowed(b) implies #[trigger] marked(b) by {
                    assert(!queued(Seq::empty(), a));
                }
                lemma_closed_contains_reachable(before, allowed, before.start, marked, p, k);
            }
        }
    }
}

/// The state of `fill_cost` while it sets the costs of the cells found from the entry
/// `(p, cost)`: `pre` is the maze when the entry was taken, `cells` what
/// `get_valid_adjascent_cells` returned for it, and the first `i` of them have their costs.
pub open spec fn costing_round(
    m: MazeView,
    before: MazeView,
    queue: Seq<(Coord, usize)>,
    pre: MazeView,
    p: Coord,
    cost: usize,
    was_done: bool,
    n_marked: nat,
    cells: Seq<MazeCell>,
    i: int,
) -> bool {
    let allowed = unknown_cost(before.cost);
    let start = before.start;
    &&& before.shaped()
    &&& unknown_in_grid(before.cost) <= usize::MAX
    &&& m.shaped()
    &&& m.same_walls(before)
    &&& pre.same_walls(before)
    &&& m.start == before.start
    &&& m.end == before.end
    &&& m.height() == before.height()
    &&& m.width() == before.width()
    &&& known_kept(m, before)
    &&& costs_exact(m, before, allowed)
    &&& forall|q: Coord| #[trigger] pre.newly_costed(before, q) ==> m.newly_costed(before, q)
    &&& entries_exact(before, allowed, start, costed_marks(m, before), queue, cost as int, cost + 1int)
    &&& entries_bounded(queue, n_marked)
    &&& descending(queue)
    &&& was_done ==> source_closed(before, allowed, start, costed_marks(m, before))
    &&& closed_except(before, allowed, costed_marks(m, before), queue, Some(p))
    &&& complete_to(before, allowed, start, costed_marks(m, before), cost as int)
    &&& (!was_done && p == start && cost == 0) || (was_done && before.is_dist(allowed, start, p, cost as nat))
    &&& cost <= n_marked
    &&& cells == pre.unvisited_neighbors(p.0, p.1)
    &&& 0 <= i <= cells.len()
    &&& forall|k: int| 0 <= k < i ==> m.newly_costed(before, (#[trigger] cells[k]).coord)
    &&& forall|k: int| i <= k < cells.len() ==> m.cost_at((#[trigger] cells[k]).coord) is None
    &&& forall|k: int|
        0 <= k < cells.len() ==> {
            let x = #[trigger] cells[k];
            &&& pre.in_grid(x.coord)
            &&& pre.is_step(p, x.coord)
            &&& pre.cost_at(x.coord) is None
        }
    &&& forall|a: int, b: int| 0 <= a < b < cells.len() ==> cells[a].coord != cells[b].coord
    &&& unknown_in_grid(m.cost) + n_marked == unknown_in_grid(before.cost)
}

/// The state of `fill_cost` between two entries.
pub open spec fn costing_state(
    m: MazeView,
    before: MazeView,
    queue: Seq<(Coord, usize)>,
    src_done: bool,
    n_marked: nat,
) -> bool {
    let allowed = unknown_cost(before.cost);
    let start = before.start;
    &&& before.shaped()
    &&& unknown_in_grid(before.cost) <= usize::MAX
    &&& m.shaped()
    &&& m.same_walls(before)
    &&& m.start == before.start
    &&& m.end == before.end
    &&& m.height() == before.height()
    &&& m.width() == before.width()
    &&& known_kept(m, before)
    &&& costs_exact(m, before, allowed)
    &&& !src_done ==> queue == seq![(start, 0usize)] && m.cost == before.cost && n_marked == 0
    &&& src_done && queue.len() > 0 ==> entries_exact(
        before,
        allowed,
        start,
        costed_marks(m, before),
        queue,
        queue.last().1 as int,
        queue.last().1 + 1,
    )
    &&& entries_bounded(queue, n_marked)
    &&& descending(queue)
    &&& src_done ==> source_closed(before, allowed, start, costed_marks(m, before))
    &&& closed_except(before, allowed, costed_marks(m, before), queue, None)
    &&& src_done && queue.len() > 0 ==> complete_to(
        before,
        allowed,
        start,
        costed_marks(m, before),
        queue.last().1 as int,
    )
    &&& unknown_in_grid(m.cost) + n_marked == unknown_in_grid(before.cost)
}

/// Taking the last entry of the queue starts a round of costing its cells.
pub proof fn lemma_begin_round(
    m: MazeView,
    before: MazeView,
    queue: Seq<(Coord, usize)>,
    src_done: bool,
    n_marked: nat,
)
    requires
        costing_state(m, before, queue, src_done, n_marked),
        queue.len() > 0,
    ensures
        costing_round(
            m,
            before,
            queue.drop_last(),
            m,
            queue.last().0,
            queue.last().1,
            src_done,
            n_marked,
            m.unvisited_neighbors(queue.last().0.0, queue.last().0.1),
            0,
        ),
{
    let allowed = unknown_cost(before.cost);
    let start = before.start;
    let p = queue.last().0;
    let cost = queue.last().1;
    reveal(entries_bounded);
    assert(queue[queue.len() - 1] == queue.last());
    if src_done {
        lemma_take_entry(before, allowed, start, costed_marks(m, before), queue);
    } else {
        reveal(entries_exact);
        reveal(complete_to);
        reveal(closed_except);
        reveal(descending);
        assert(queue.drop_last() =~= Seq::<(Coord, usize)>::empty());
    }
    assert forall|i: int| 0 <= i < queue.drop_last().len() implies (#[trigger] queue.drop_last()[i]).1 <= n_marked by {
        assert(queue.drop_last()[i] == queue[i]);
    }
    lemma_unvisited_neighbors(m, p);
}

/// When every cell of the round has its cost, the search is back between two entries.
pub proof fn lemma_end_round(
    m: MazeView,
    before: MazeView,
    queue: Seq<(Coord, usize)>,
    pre: MazeView,
    p: Coord,
    cost: usize,
    was_done: bool,
    n_marked: nat,
    cells: Seq<MazeCell>,
)
    requires
        costing_round(m, before, queue, pre, p, cost, was_done, n_marked, cells, cells.len() as int),
        pre.shaped(),
    ensures
        costing_state(m, before, queue, true, n_marked),
{
    let allowed = unknown_cost(before.cost);
    let start = before.start;
    lemma_unvisited_neighbors(pre, p);
    lemma_step_same_walls(pre, before);
    assert forall|q: Coord| #[trigger] before.is_step(p, q) && allowed(q) implies costed_marks(m, before)(q) by {
        assert(pre.is_step(p, q));
        if pre.cost_at(q) is None {
            let k = choose|k: int| 0 <= k < cells.len() && cells[k].coord == q;
            assert(m.newly_costed(before, cells[k].coord));
        } else {
            assert(pre.newly_costed(before, q));
        }
    }
    lemma_entry_done(before, allowed, start, costed_marks(m, before), queue, p, cost as nat, was_done);
}

impl Maze {
    /// Sets the cost of each of `cells` to `cost + 1` and puts it in front of the queue.
    fn set_neighbor_costs(
        &mut self,
        queue: &mut VecDeque<(Coord, usize)>,
        cells: &Vec<MazeCell>,
        cost: usize,
        Ghost(before): Ghost<MazeView>,
        Ghost(pre): Ghost<MazeView>,
        Ghost(p): Ghost<Coord>,
        Ghost(was_done): Ghost<bool>,
        Ghost(n_marked): Ghost<nat>,
    ) -> (n_after: Ghost<nat>)
        requires
            costing_round(old(self)@, before, old(queue)@, pre, p, cost, was_done, n_marked, cells@, 0),
        ensures
            costing_round(final(self)@, before, final(queue)@, pre, p, cost, was_done, n_after@, cells@, cells@.len() as int),
            final(self)@.shaped(),
            n_after@ == n_marked + cells@.len(),
            final(queue)@.len() == old(queue)@.len() + cells@.len(),
    {
        let ghost n_start = n_marked;
        let ghost q_start = queue@.len();
        let ghost allowed = unknown_cost(before.cost);
        let ghost start = before.start;
        let ghost mut n_marked = n_marked;
        let mut i: usize = 0;
        while i < cells.len()
            invariant
                costing_round(self@, before, queue@, pre, p, cost, was_done, n_marked, cells@, i as int),
                n_marked == n_start + i,
                queue@.len() == q_start + i,
                allowed == unknown_cost(before.cost),
                start == before.start,
            decreases cells@.len() - i,
        {
            let x = cells[i];
            let ghost y = x.coord;
            let ghost mid = self@;
            let ghost mid_queue = queue@;
            proof {
                assert(cells@[i as int] == x);
                lemma_unknown_in_grid_set(mid.cost, y.0 as int, y.1 as int, 0);
                reveal(known_kept);
                lemma_step_same_walls(pre, before);
                assert(before.cost_at(y) is None);
                assert(before.is_step(p, y));
                assert(!costed_marks(mid, before)(y));
                assert(allowed(y));
                lemma_reach_extend(before, allowed, start, p, cost as nat, y);
                reveal(complete_to);
                assert forall|j: nat| 1 <= j < cost + 1 implies !#[trigger] before.reach(allowed, start, y, j) by {}
            }
            self.cost[x.coord.0][x.coord.1] = Some(cost + 1);
            proof {
                assert(self@.cost =~= mid.cost.update(y.0 as int, mid.cost[y.0 as int].update(y.1 as int, Some((cost + 1) as usize))));
                lemma_record_cost(before, allowed, mid, self@, y, (cost + 1) as usize);
                lemma_add_entry(
                    before,
                    allowed,
                    start,
                    costed_marks(mid, before),
                    costed_marks(self@, before),
                    mid_queue,
                    p,
                    cost as nat,
                    y,
                );
                n_marked = n_marked + 1;
                lemma_marks_grow(before, allowed, start, costed_marks(mid, before), costed_marks(self@, before), cost as int);
            }
            queue.push_front((x.coord, cost + 1));
            proof {
                assert(queue@ == seq![(y, (cost + 1) as usize)] + mid_queue);
                reveal(entries_bounded);
                assert forall|k: int| 0 <= k < queue@.len() implies (#[trigger] queue@[k]).1 <= n_marked by {
                    if k > 0 {
                        assert(queue@[k] == mid_queue[k - 1]);
                    }
                }
                assert forall|k: int| i + 1 <= k < cells@.len() implies self@.cost_at((#[trigger] cells@[k]).coord) is None by {
                    assert(cells@[k].coord != y);
                }
            }
            i = i + 1;
        }
        Ghost(n_marked)
    }

    /// Gives every cell that a walk from `start` through cells of unknown cost reaches its
    /// distance from `start`: a breadth-first search that sets the cost of each newly found
    /// cell to one more than the cost of the cell it was found from. Cells whose cost is known
    /// are not entered. `start` itself is not marked when the search begins, so a start cell of
    /// unknown cost gets the length of the shortest walk that returns to it (2 when it has an
    /// open neighbour of unknown cost).
    pub fn fill_cost(&mut self)
        requires
            old(self)@.shaped(),
            old(self)@.height() * old(self)@.width() <= usize::MAX,
        ensures
            final(self)@.shaped(),
            final(self)@.same_walls(old(self)@),
            final(self)@.start == old(self)@.start,
            final(self)@.end == old(self)@.end,
            final(self)@.costs_filled_from(old(self)@),
    {
        let ghost before = self@;
        let start = self.start;
        let mut queue: VecDeque<(Coord, usize)> = VecDeque::new();
        queue.push_front((start, 0));
        let ghost mut src_done = false;
        let ghost mut n_marked: nat = 0;
        proof {
            lemma_unknown_in_grid_bound(before.cost, before.width());
            assert(before.cost.len() * before.width() == before.height() * before.width());
            reveal(known_kept);
            reveal(costs_exact);
            reveal(descending);
            reveal(closed_except);
            reveal(entries_bounded);
        }
        while queue.len() > 0
            invariant
                costing_state(self@, before, queue@, src_done, n_marked),
                start == before.start,
            decreases 2 * unknown_in_grid(self@.cost) + queue@.len(),
        {
            let ghost pre_queue = queue@;
            let ghost pre = self@;
            proof {
                lemma_begin_round(self@, before, queue@, src_done, n_marked);
            }
            let ((row, col), cost) = queue.pop_back().unwrap();
            proof {
                assert(queue@ == pre_queue.drop_last());
                assert(((row, col), cost) == pre_queue.last());
            }
            proof {
                crate::maze::lemma_shaped_settable(self@, row, col, None);
            }
            let cells = self.get_valid_adjascent_cells(row, col);
            let ghost_n = self.set_neighbor_costs(
                &mut queue,
                &cells,
                cost,
                Ghost(before),
                Ghost(pre),
                Ghost((row, col)),
                Ghost(src_done),
                Ghost(n_marked),
            );
            proof {
                n_marked = ghost_n@;
                lemma_end_round(self@, before, queue@, pre, (row, col), cost, src_done, n_marked, cells@);
                src_done = true;
            }
        }
        proof {
            lemma_fill_result(before, unknown_cost(before.cost), self@);
        }
    }
}

/// A cell reached through cells whose cost was unknown after a filling was reached through
/// cells whose cost was unknown before it.
proof fn lemma_reachable_fewer_unknown(m0: MazeView, m1: MazeView, p: Coord)
    requires
        m0.shaped(),
        m1.same_walls(m0),
        m1.start == m0.start,
        m1.cost.len() == m0.cost.len(),
        forall|q: Coord| #[trigger] unknown_cost(m1.cost)(q) ==> unknown_cost(m0.cost)(q),
        m1.reachable(unknown_cost(m1.cost), m1.start, p),
    ensures
        m0.reachable(unknown_cost(m0.cost), m0.start, p),
{
    let k = choose|k: nat| k >= 1 && #[trigger] m1.reach(unknown_cost(m1.cost), m1.start, p, k);
    let w = choose|w: Seq<Coord>|
        #[trigger] m1.is_walk(unknown_cost(m1.cost), w) && w.len() == k + 1 && w[0] == m1.start && w[k as int] == p;
    crate::paths::lemma_walk_same_walls(m1, m0, unknown_cost(m1.cost), w);
    assert(m0.is_walk(unknown_cost(m0.cost), w)) by {
        assert forall|i: int| 1 <= i < w.len() implies unknown_cost(m0.cost)(#[trigger] w[i]) by {
            assert(unknown_cost(m1.cost)(w[i]));
        }
    }
    assert(m0.reach(unknown_cost(m0.cost), m0.start, p, k));
}

/// Filling the costs a second time changes nothing: every cell left unknown by the first
/// filling cannot be reached through cells of unknown cost.
pub proof fn lemma_fill_cost_idempotent(m0: MazeView, m1: MazeView, m2: MazeView)
    requires
        m0.shaped(),
        m1.shaped(),
        m1.same_walls(m0),
        m1.start == m0.start,
        m1.costs_filled_from(m0),
        m2.shaped(),
        m2.same_walls(m1),
        m2.start == m1.start,
        m2.costs_filled_from(m1),
    ensures
        m2.cost == m1.cost,
{
    assert forall|q: Coord| #[trigger] unknown_cost(m1.cost)(q) implies unknown_cost(m0.cost)(q) by {
        assert(m1.cost_at(q) is None);
        assert(m0.in_grid(q)) by {
            assert(m1.cost[q.0 as int].len() == m1.width());
        }
        if m0.cost_at(q) is Some {
            assert(m1.cost_at(q) == m0.cost_at(q));
        }
        assert(m0.cost[q.0 as int].len() == m0.width());
    }
    assert forall|r: int| 0 <= r < m1.cost.len() implies #[trigger] m2.cost[r] =~= m1.cost[r] by {
        assert(m1.cost[r].len() == m1.width());
        assert(m2.cost[r].len() == m2.width());
        assert forall|c: int| 0 <= c < m1.cost[r].len() implies m2.cost[r][c] == m1.cost[r][c] by {
            let q: Coord = (r as usize, c as usize);
            assert(m1.in_grid(q));
            assert(m2.cost_at(q) == m2.cost[r][c]);
            if m1.cost_at(q) is None {
                if m2.cost_at(q) is Some {
                    lemma_reachable_fewer_unknown(m0, m1, q);
                    assert(m0.in_grid(q));
                    assert(m0.cost_at(q) is None) by {
                        assert(m0.cost[r].len() == m0.width());
                    }
                }
            }
        }
    }
    assert(m2.cost =~= m1.cost);
}

} // verus!
