use vstd::prelude::*;
use std::collections::VecDeque;

use crate::coord_set::CoordSet;
use crate::maze::{lemma_lookup_placed, lemma_shaped_covers, Coord, Direction, Maze, MazeCell, MazeView};
use crate::paths::{
    closed_except, complete_to, descending, entries_exact, lemma_add_entry,
    lemma_closed_contains_reachable, lemma_entry_done, lemma_marks_grow, lemma_reach_extend,
    lemma_take_entry, queued, source_closed,
};

verus! {

broadcast use vstd::std_specs::vecdeque::group_vec_dequeue_axioms;

/// Every coordinate but `start`.
pub open spec fn other_than(start: Coord) -> spec_fn(Coord) -> bool {
    |q: Coord| q != start
}

/// The coordinates of `acc` other than `start`: those the search has found.
pub open spec fn seen_marks(acc: Set<Coord>, start: Coord) -> spec_fn(Coord) -> bool {
    |q: Coord| acc.contains(q) && q != start
}

impl MazeView {
    /// `res` is a coordinate farthest from `start`: when a walk from `start` reaches some other
    /// coordinate, `res` is reached and no coordinate has a greater distance; otherwise `res`
    /// is `start`.
    pub open spec fn farthest_from(self, start: Coord, res: Coord) -> bool {
        let allowed = other_than(start);
        ||| (res == start && forall|y: Coord| !#[trigger] self.reachable(allowed, start, y))
        ||| exists|k: nat|
            #[trigger] self.is_dist(allowed, start, res, k) && forall|y: Coord, j: nat|
                #[trigger] self.is_dist(allowed, start, y, j) ==> j <= k
    }

    /// The step from `coord` in direction `d` when it leads to a coordinate not in `acc`.
    pub open spec fn unseen_step(self, coord: Coord, acc: Set<Coord>, d: Direction) -> Seq<Coord> {
        match self.succ(coord, d) {
            Some(q) => if !acc.contains(q) {
                seq![q]
            } else {
                Seq::empty()
            },
            None => Seq::empty(),
        }
    }

    /// The coordinates one step from `coord` that are not in `acc`, in the order north, east,
    /// west, south.
    pub open spec fn unseen_steps(self, coord: Coord, acc: Set<Coord>) -> Seq<Coord> {
        self.unseen_step(coord, acc, Direction::North) + self.unseen_step(
            coord,
            acc,
            Direction::East,
        ) + self.unseen_step(coord, acc, Direction::West) + self.unseen_step(
            coord,
            acc,
            Direction::South,
        )
    }
}

/// The unseen steps are the step targets outside `acc`, each once, all in the grid.
#[verifier::rlimit(40)]
pub proof fn lemma_unseen_steps(m: MazeView, coord: Coord, acc: Set<Coord>)
    requires
        m.shaped(),
    ensures
        forall|i: int|
            0 <= i < m.unseen_steps(coord, acc).len() ==> {
                let q = #[trigger] m.unseen_steps(coord, acc)[i];
                &&& m.is_step(coord, q)
                &&& !acc.contains(q)
                &&& q.0 < m.height()
                &&& q.1 < m.width()
            },
        forall|q: Coord|
            #[trigger] m.is_step(coord, q) && !acc.contains(q) ==> exists|i: int|
                0 <= i < m.unseen_steps(coord, acc).len() && m.unseen_steps(coord, acc)[i] == q,
        forall|i: int, j: int|
            0 <= i < j < m.unseen_steps(coord, acc).len() ==> m.unseen_steps(coord, acc)[i]
                != m.unseen_steps(coord, acc)[j],
{
    let r = (coord.0 as i32) as int;
    let c = (coord.1 as i32) as int;
    lemma_shaped_covers(m);
    if m.in_range(r, c) {
        lemma_lookup_placed(m, r, c);
        if m.in_range(r + 1, c) {
            lemma_lookup_placed(m, r + 1, c);
        }
        if m.in_range(r - 1, c) {
            lemma_lookup_placed(m, r - 1, c);
        }
        if m.in_range(r, c + 1) {
            lemma_lookup_placed(m, r, c + 1);
        }
        if m.in_range(r, c - 1) {
            lemma_lookup_placed(m, r, c - 1);
        }
        let a = m.unseen_step(coord, acc, Direction::North);
        let b = m.unseen_step(coord, acc, Direction::East);
        let w = m.unseen_step(coord, acc, Direction::West);
        let e = m.unseen_step(coord, acc, Direction::South);
        let us = m.unseen_steps(coord, acc);
        assert(us == a + b + w + e);
        assert forall|q: Coord| #[trigger] m.is_step(coord, q) && !acc.contains(q) implies exists|i: int|
            0 <= i < us.len() && us[i] == q by {
            if m.succ(coord, Direction::North) == Some(q) {
                assert(us[0] == q);
            } else if m.succ(coord, Direction::East) == Some(q) {
                assert(us[a.len() as int] == q);
            } else if m.succ(coord, Direction::West) == Some(q) {
                assert(us[(a.len() + b.len()) as int] == q);
            } else {
                assert(us[(a.len() + b.len() + w.len()) as int] == q);
            }
        }
    }
}

/// Every found coordinate that is no longer queued lies within `best` steps.
#[verifier::opaque]
pub open spec fn processed_within(
    m: MazeView,
    allowed: spec_fn(Coord) -> bool,
    s: Coord,
    marked: spec_fn(Coord) -> bool,
    queue: Seq<(Coord, usize)>,
    best: int,
) -> bool {
    forall|x: Coord, k: nat|
        marked(x) && !queued(queue, x) && #[trigger] m.is_dist(allowed, s, x, k) ==> k <= best
}

/// The steps of the entries are bounded by `n`.
#[verifier::opaque]
pub open spec fn steps_bounded(queue: Seq<(Coord, usize)>, n: nat) -> bool {
    forall|i: int| 0 <= i < queue.len() ==> (#[trigger] queue[i]).1 <= n
}

/// The best coordinate found so far: `start` at no steps, or a found coordinate at its
/// distance.
pub open spec fn best_found(
    m: MazeView,
    start: Coord,
    marked: spec_fn(Coord) -> bool,
    best: Coord,
    best_cost: usize,
) -> bool {
    ||| (best == start && best_cost == 0)
    ||| (marked(best) && m.is_dist(other_than(start), start, best, best_cost as nat))
}

/// The state of `find_farthest_point` between two entries.
#[verifier::opaque]
pub open spec fn search_state(
    m: MazeView,
    start: Coord,
    acc: CoordSet,
    queue: Seq<(Coord, usize)>,
    src_done: bool,
    best: Coord,
    best_cost: usize,
) -> bool {
    let allowed = other_than(start);
    let marked = seen_marks(acc@, start);
    &&& m.shaped()
    &&& acc.wf()
    &&& acc.rows() == m.height()
    &&& acc.cols() == m.width()
    &&& acc.in_grid(start) ==> acc@.contains(start)
    &&& !src_done ==> queue == seq![(start, 0usize)] && best == start && best_cost == 0 && forall|
        q: Coord,
    | !#[trigger] marked(q)
    &&& src_done && queue.len() > 0 ==> entries_exact(
        m,
        allowed,
        start,
        marked,
        queue,
        queue.last().1 as int,
        queue.last().1 + 1,
    )
    &&& steps_bounded(queue, acc.size())
    &&& descending(queue)
    &&& src_done ==> source_closed(m, allowed, start, marked)
    &&& closed_except(m, allowed, marked, queue, None)
    &&& src_done && queue.len() > 0 ==> complete_to(m, allowed, start, marked, queue.last().1 as int)
    &&& best_found(m, start, marked, best, best_cost)
    &&& processed_within(m, allowed, start, marked, queue, best_cost as int)
}

/// The state of `find_farthest_point` while it queues the coordinates found from the entry
/// `(p, cost)`; the first `i` of `others` are queued.
pub open spec fn search_round(
    m: MazeView,
    start: Coord,
    acc: CoordSet,
    queue: Seq<(Coord, usize)>,
    pre_acc: Set<Coord>,
    p: Coord,
    cost: usize,
    was_done: bool,
    best: Coord,
    best_cost: usize,
    others: Seq<Coord>,
    i: int,
) -> bool {
    let allowed = other_than(start);
    let marked = seen_marks(acc@, start);
    &&& m.shaped()
    &&& acc.wf()
    &&& acc.rows() == m.height()
    &&& acc.cols() == m.width()
    &&& acc.in_grid(start) ==> acc@.contains(start)
    &&& pre_acc.subset_of(acc@)
    &&& entries_exact(m, allowed, start, marked, queue, cost as int, cost + 1int)
    &&& steps_bounded(queue, acc.size())
    &&& descending(queue)
    &&& was_done ==> source_closed(m, allowed, start, marked)
    &&& closed_except(m, allowed, marked, queue, Some(p))
    &&& complete_to(m, allowed, start, marked, cost as int)
    &&& (!was_done && p == start && cost == 0) || (was_done && m.is_dist(allowed, start, p, cost as nat))
    &&& cost <= acc.size()
    &&& best_found(m, start, marked, best, best_cost)
    &&& cost <= best_cost
    &&& processed_within(m, allowed, start, marked, queue, best_cost as int)
    &&& others == m.unseen_steps(p, pre_acc)
    &&& 0 <= i <= others.len()
    &&& forall|k: int| 0 <= k < i ==> acc@.contains(#[trigger] others[k])
    &&& forall|k: int| i <= k < others.len() ==> !acc@.contains(#[trigger] others[k])
    &&& forall|k: int|
        0 <= k < others.len() ==> {
            let q = #[trigger] others[k];
            &&& m.is_step(p, q)
            &&& q.0 < m.height()
            &&& q.1 < m.width()
        }
    &&& forall|a: int, b: int| 0 <= a < b < others.len() ==> others[a] != others[b]
}

/// Taking the last entry of the queue and updating the best coordinate starts a round.
pub proof fn lemma_begin_search_round(
    m: MazeView,
    start: Coord,
    acc: CoordSet,
    queue: Seq<(Coord, usize)>,
    src_done: bool,
    best: Coord,
    best_cost: usize,
)
    requires
        search_state(m, start, acc, queue, src_done, best, best_cost),
        queue.len() > 0,
    ensures
        ({
            let (p, cost) = queue.last();
            let (b, bc) = if best_cost < cost {
                (p, cost)
            } else {
                (best, best_cost)
            };
            search_round(
                m,
                start,
                acc,
                queue.drop_last(),
                acc@,
                p,
                cost,
                src_done,
                b,
                bc,
                m.unseen_steps(p, acc@),
                0,
            )
        }),
{
    reveal(search_state);
    reveal(search_round);
    let allowed = other_than(start);
    let marked = seen_marks(acc@, start);
    let (p, cost) = queue.last();
    reveal(steps_bounded);
    reveal(processed_within);
    assert(queue[queue.len() - 1] == queue.last());
    if src_done {
        lemma_take_entry(m, allowed, start, marked, queue);
    } else {
        reveal(entries_exact);
        reveal(complete_to);
        reveal(closed_except);
        reveal(descending);
        assert(queue.drop_last() =~= Seq::<(Coord, usize)>::empty());
    }
    let rest = queue.drop_last();
    assert forall|i: int| 0 <= i < rest.len() implies #[trigger] rest[i] == queue[i] by {}
    let bc = if best_cost < cost {
        cost
    } else {
        best_cost
    };
    assert forall|x: Coord, k: nat|
        marked(x) && !queued(rest, x) && #[trigger] m.is_dist(allowed, start, x, k) implies k <= bc by {
        if x == p {
            crate::paths::lemma_dist_unique(m, allowed, start, x, k, cost as nat);
        } else {
            if queued(queue, x) {
                let i = choose|i: int| 0 <= i < queue.len() && (#[trigger] queue[i]).0 == x;
                assert(i < rest.len());
                assert(rest[i] == queue[i]);
            }
        }
    }
    lemma_unseen_steps(m, p, acc@);
}

/// When every coordinate of the round is queued, the search is back between two entries.
pub proof fn lemma_end_search_round(
    m: MazeView,
    start: Coord,
    acc: CoordSet,
    queue: Seq<(Coord, usize)>,
    pre_acc: Set<Coord>,
    p: Coord,
    cost: usize,
    was_done: bool,
    best: Coord,
    best_cost: usize,
    others: Seq<Coord>,
)
    requires
        search_round(m, start, acc, queue, pre_acc, p, cost, was_done, best, best_cost, others, others.len() as int),
    ensures
        search_state(m, start, acc, queue, true, best, best_cost),
{
    reveal(search_state);
    reveal(search_round);
    let allowed = other_than(start);
    let marked = seen_marks(acc@, start);
    lemma_unseen_steps(m, p, pre_acc);
    assert forall|q: Coord| #[trigger] m.is_step(p, q) && allowed(q) implies marked(q) by {
        if !pre_acc.contains(q) {
            let k = choose|k: int| 0 <= k < others.len() && others[k] == q;
            assert(acc@.contains(others[k]));
        }
    }
    lemma_entry_done(m, allowed, start, marked, queue, p, cost as nat, was_done);
}

impl Maze {
    /// The cell one step from `coord` in direction `d`, as the search takes it.
    fn step_from(&self, coord: Coord, d: Direction) -> (res: Option<MazeCell>)
        requires
            self@.shaped(),
        ensures
            res is None <==> self@.succ(coord, d) is None,
            res matches Some(c) ==> self@.succ(coord, d) == Some(c.coord),
    {
        proof {
            lemma_shaped_covers(self@);
        }
        match self.get_maze_cell(coord.0 as i32, coord.1 as i32) {
            None => None,
            Some(maze_cell) => {
                proof {
                    lemma_lookup_placed(self@, (coord.0 as i32) as int, (coord.1 as i32) as int);
                    crate::maze::lemma_placed_walls(self@, maze_cell, d);
                }
                self.get_cell_by_direction(&maze_cell, &d)
            },
        }
    }

    /// The coordinates one step from `coord` that are not in `acc`, in the order north, east,
    /// west, south.
    fn unseen_from(&self, coord: Coord, acc: &CoordSet) -> (res: Vec<Coord>)
        requires
            self@.shaped(),
            acc.wf(),
        ensures
            res@ == self@.unseen_steps(coord, acc@),
    {
        let mut other: Vec<Coord> = Vec::new();
        push_unseen(&mut other, self.step_from(coord, Direction::North), acc);
        push_unseen(&mut other, self.step_from(coord, Direction::East), acc);
        push_unseen(&mut other, self.step_from(coord, Direction::West), acc);
        push_unseen(&mut other, self.step_from(coord, Direction::South), acc);
        assert(other@ =~= self@.unseen_steps(coord, acc@));
        other
    }
}

/// Appends the coordinate of `step` when there is one and it is not in `acc`.
fn push_unseen(out: &mut Vec<Coord>, step: Option<MazeCell>, acc: &CoordSet)
    requires
        acc.wf(),
    ensures
        final(out)@ == old(out)@ + match step {
            Some(c) => if !acc@.contains(c.coord) {
                seq![c.coord]
            } else {
                Seq::empty()
            },
            None => Seq::empty(),
        },
{
    match step {
        Some(c) => {
            if !acc.contains(&c.coord) {
                out.push(c.coord);
            }
        },
        None => {},
    }
    assert(out@ =~= old(out)@ + match step {
        Some(c) => if !acc@.contains(c.coord) {
            seq![c.coord]
        } else {
            Seq::empty()
        },
        None => Seq::empty(),
    });
}

/// Queueing the next coordinate of the round.
#[verifier::rlimit(40)]
pub proof fn lemma_queue_one(
    m: MazeView,
    start: Coord,
    acc: CoordSet,
    acc2: CoordSet,
    queue: Seq<(Coord, usize)>,
    queue2: Seq<(Coord, usize)>,
    pre_acc: Set<Coord>,
    p: Coord,
    cost: usize,
    was_done: bool,
    best: Coord,
    best_cost: usize,
    others: Seq<Coord>,
    i: int,
)
    requires
        search_round(m, start, acc, queue, pre_acc, p, cost, was_done, best, best_cost, others, i),
        i < others.len(),
        acc.size() < acc.rows() * acc.cols(),
        acc.rows() * acc.cols() <= usize::MAX,
        queue2 == seq![(others[i], (cost + 1) as usize)] + queue,
        acc2.wf(),
        acc2.rows() == acc.rows(),
        acc2.cols() == acc.cols(),
        acc2@ == acc@.insert(others[i]),
        acc2.size() == acc.size() + 1,
    ensures
        search_round(m, start, acc2, queue2, pre_acc, p, cost, was_done, best, best_cost, others, i + 1),
{
    reveal(search_state);
    reveal(search_round);
    let allowed = other_than(start);
    let y = others[i];
    let marked = seen_marks(acc@, start);
    let marked2 = seen_marks(acc2@, start);
    assert(!acc@.contains(y));
    assert(y != start);
    assert(allowed(y));
    assert forall|q: Coord| q != y implies #[trigger] marked2(q) == marked(q) by {}
    lemma_add_entry(m, allowed, start, marked, marked2, queue, p, cost as nat, y);
    lemma_marks_grow(m, allowed, start, marked, marked2, cost as int);
    reveal(steps_bounded);
    reveal(processed_within);
    assert forall|k: int| 0 <= k < queue2.len() implies (#[trigger] queue2[k]).1 <= acc2.size() by {
        if k > 0 {
            assert(queue2[k] == queue[k - 1]);
        }
    }
    assert forall|x: Coord, k: nat|
        marked2(x) && !queued(queue2, x) && #[trigger] m.is_dist(allowed, start, x, k) implies k <= best_cost by {
        assert(queue2[0].0 == y);
        if queued(queue, x) {
            let j = choose|j: int| 0 <= j < queue.len() && (#[trigger] queue[j]).0 == x;
            assert(queue2[j + 1] == queue[j]);
        }
    }
    assert forall|k: int| i + 1 <= k < others.len() implies !acc2@.contains(#[trigger] others[k]) by {
        assert(others[k] != y);
    }
    assert forall|k: int| 0 <= k < i + 1 implies acc2@.contains(#[trigger] others[k]) by {}
}

/// The queue after pushing each of `others`, in turn, to its front with `cost` steps.
pub open spec fn queued_front(queue: Seq<(Coord, usize)>, others: Seq<Coord>, cost: usize) -> Seq<(Coord, usize)>
    decreases others.len(),
{
    if others.len() == 0 {
        queue
    } else {
        seq![(others.last(), cost)] + queued_front(queue, others.drop_last(), cost)
    }
}

/// The breadth-first search of `find_farthest_point` run for at most `fuel` rounds from the
/// given queue (taken from its back), marks and best cell so far: each round takes the last
/// queued cell, keeps it when its steps exceed the best so far, and queues at the front the
/// unmarked cells one step away, in the order north, east, west, south.
pub open spec fn search_run(
    m: MazeView,
    queue: Seq<(Coord, usize)>,
    acc: Set<Coord>,
    best: Coord,
    best_cost: usize,
    fuel: nat,
) -> Coord
    decreases fuel,
{
    if fuel == 0 || queue.len() == 0 {
        best
    } else {
        let (c, cost) = queue.last();
        let others = m.unseen_steps(c, acc);
        let (b, bc) = if best_cost < cost {
            (c, cost)
        } else {
            (best, best_cost)
        };
        search_run(
            m,
            queued_front(queue.drop_last(), others, (cost + 1) as usize),
            acc + others.to_set(),
            b,
            bc,
            (fuel - 1) as nat,
        )
    }
}

/// The cell that the breadth-first search from `start` takes first among those with the
/// greatest number of steps (`start` when no other cell is reached). The search ends within
/// one round per cell of the grid and one for `start`.
pub open spec fn first_farthest(m: MazeView, start: Coord) -> Coord {
    search_run(m, seq![(start, 0usize)], set![start], start, 0, (m.height() * m.width() + 1) as nat)
}

/// Taking one more of `others`: the queue gets it at its front and the set of taken ones
/// gets it as a member.
proof fn lemma_take_one_more(others: Seq<Coord>, i: int, q0: Seq<(Coord, usize)>, cost: usize)
    requires
        0 <= i < others.len(),
    ensures
        queued_front(q0, others.take(i + 1), cost) == seq![(others[i], cost)] + queued_front(q0, others.take(i), cost),
        others.take(i + 1).to_set() == others.take(i).to_set().insert(others[i]),
{
    let t = others.take(i + 1);
    assert(t.drop_last() == others.take(i));
    assert(t.last() == others[i]);
    let y = others[i];
    assert forall|x: Coord| t.to_set().contains(x) == others.take(i).to_set().insert(y).contains(x) by {
        if t.contains(x) {
            let k = choose|k: int| 0 <= k < t.len() && t[k] == x;
            if k < i {
                assert(others.take(i)[k] == x);
            }
        }
        if others.take(i).contains(x) {
            let k = choose|k: int| 0 <= k < i && others.take(i)[k] == x;
            assert(t[k] == x);
        }
        if x == y {
            assert(t[i] == y);
        }
    }
    assert(t.to_set() =~= others.take(i).to_set().insert(y));
}

/// The search depends on the walls only.
pub proof fn lemma_search_run_same_walls(
    m1: MazeView,
    m2: MazeView,
    queue: Seq<(Coord, usize)>,
    acc: Set<Coord>,
    best: Coord,
    best_cost: usize,
    fuel: nat,
)
    requires
        m1.same_walls(m2),
    ensures
        search_run(m1, queue, acc, best, best_cost, fuel) == search_run(m2, queue, acc, best, best_cost, fuel),
    decreases fuel,
{
    if fuel > 0 && queue.len() > 0 {
        let (c, cost) = queue.last();
        crate::paths::lemma_succ_same_walls(m1, m2, c, Direction::North);
        crate::paths::lemma_succ_same_walls(m1, m2, c, Direction::East);
        crate::paths::lemma_succ_same_walls(m1, m2, c, Direction::West);
        crate::paths::lemma_succ_same_walls(m1, m2, c, Direction::South);
        assert(m1.unseen_steps(c, acc) == m2.unseen_steps(c, acc));
        let others = m1.unseen_steps(c, acc);
        let (b, bc) = if best_cost < cost {
            (c, cost)
        } else {
            (best, best_cost)
        };
        lemma_search_run_same_walls(
            m1,
            m2,
            queued_front(queue.drop_last(), others, (cost + 1) as usize),
            acc + others.to_set(),
            b,
            bc,
            (fuel - 1) as nat,
        );
    }
}

impl Maze {
    /// Queues each of `others` at `cost + 1` steps and adds it to `acc`.
    fn queue_unseen(
        &self,
        queue: &mut VecDeque<(Coord, usize)>,
        acc: &mut CoordSet,
        others: &Vec<Coord>,
        cost: usize,
        Ghost(start): Ghost<Coord>,
        Ghost(pre_acc): Ghost<Set<Coord>>,
        Ghost(p): Ghost<Coord>,
        Ghost(was_done): Ghost<bool>,
        Ghost(best): Ghost<Coord>,
        Ghost(best_cost): Ghost<usize>,
    )
        requires
            search_round(self@, start, *old(acc), old(queue)@, pre_acc, p, cost, was_done, best, best_cost, others@, 0),
            old(acc).wf(),
            old(acc).rows() == self@.height(),
            old(acc).cols() == self@.width(),
            cost <= old(acc).size(),
        ensures
            search_round(self@, start, *final(acc), final(queue)@, pre_acc, p, cost, was_done, best, best_cost, others@, others@.len() as int),
            final(acc).size() == old(acc).size() + others@.len(),
            final(acc).wf(),
            final(acc).rows() == self@.height(),
            final(acc).cols() == self@.width(),
            final(queue)@.len() == old(queue)@.len() + others@.len(),
            final(queue)@ == queued_front(old(queue)@, others@, (cost + 1) as usize),
            final(acc)@ == old(acc)@ + others@.to_set(),
    {
        proof {
            reveal(search_round);
        }
        let ghost q0 = queue@;
        let ghost a0 = acc@;
        let ghost allowed = other_than(start);
        let ghost size0 = acc.size();
        let ghost len0 = queue@.len();
        let mut i: usize = 0;
        while i < others.len()
            invariant
                search_round(self@, start, *acc, queue@, pre_acc, p, cost, was_done, best, best_cost, others@, i as int),
                allowed == other_than(start),
                acc.wf(),
                acc.rows() == self@.height(),
                acc.cols() == self@.width(),
                cost <= acc.size(),
                forall|k: int| i <= k < others@.len() ==> !acc@.contains(#[trigger] others@[k]),
                forall|k: int| 0 <= k < others@.len() ==> (#[trigger] others@[k]).0 < self@.height() && others@[k].1 < self@.width(),
                acc.size() == size0 + i,
                queue@.len() == len0 + i,
                queue@ == queued_front(q0, others@.take(i as int), (cost + 1) as usize),
                acc@ == a0 + others@.take(i as int).to_set(),
            decreases others@.len() - i,
        {
            let y = others[i];
            let ghost mid_acc = *acc;
            let ghost mid_queue = queue@;
            proof {
                assert(others@[i as int] == y);
                acc.lemma_missing(y);
                acc.lemma_bounds();
            }
            queue.push_front((y, cost + 1));
            acc.insert(y);
            proof {
                lemma_take_one_more(others@, i as int, q0, (cost + 1) as usize);
                let t = others@.take(i as int + 1);
                assert(acc@ =~= a0 + t.to_set());
                assert(queue@ == queued_front(q0, t, (cost + 1) as usize));
                lemma_queue_one(self@, start, mid_acc, *acc, mid_queue, queue@, pre_acc, p, cost, was_done, best, best_cost, others@, i as int);
                assert forall|k: int| i + 1 <= k < others@.len() implies !acc@.contains(#[trigger] others@[k]) by {
                    reveal(search_round);
                }
            }
            i = i + 1;
        }
        assert(others@.take(others@.len() as int) == others@);
    }

    /// The cell farthest from `start`: a breadth-first search from `start` that keeps the
    /// first coordinate taken with the greatest number of steps. `width` and `height` size the
    /// search's storage.
    pub fn find_farthest_point(&self, start: &(usize, usize), width: usize, height: usize) -> (res: (
        usize,
        usize,
    ))
        requires
            self@.shaped(),
            width * height <= usize::MAX,
            self@.height() * self@.width() <= usize::MAX,
        ensures
            self@.farthest_from(*start, res),
            res == first_farthest(self@, *start),
    {
        let ghost allowed = other_than(*start);
        let mut queue: VecDeque<((usize, usize), usize)> = VecDeque::with_capacity(width * height);
        let mut acc = CoordSet::new(self.horizontal_walls.len(), self.vertical_walls.len());
        queue.push_front((*start, 0));
        acc.insert(*start);
        let mut coord_with_max_distance = (*start, 0usize);
        let ghost mut src_done = false;
        let ghost total: int = self@.height() * self@.width() + 1;
        let ghost mut rounds: int = 0;
        proof {
            assert(acc@ =~= set![*start]);
            acc.lemma_bounds();
            reveal(steps_bounded);
            reveal(descending);
            reveal(closed_except);
            reveal(processed_within);
            reveal(search_state);
            assert(queue@ == seq![(*start, 0usize)]);
        }
        while queue.len() > 0
            invariant
                search_state(self@, *start, acc, queue@, src_done, coord_with_max_distance.0, coord_with_max_distance.1),
                allowed == other_than(*start),
                self@.shaped(),
                acc.wf(),
                acc.rows() == self@.height(),
                acc.cols() == self@.width(),
                total == self@.height() * self@.width() + 1,
                0 <= rounds,
                rounds + queue@.len() <= 1 + acc.size(),
                acc.size() <= self@.height() * self@.width(),
                search_run(self@, queue@, acc@, coord_with_max_distance.0, coord_with_max_distance.1, (total - rounds) as nat)
                    == first_farthest(self@, *start),
            decreases 2 * (self@.height() * self@.width() - acc.size()) + queue@.len(),
        {
            let ghost pre_queue = queue@;
            let ghost pre_acc = acc@;
            let ghost pre_best = coord_with_max_distance;
            let ghost pre_size = acc.size();
            proof {
                lemma_begin_search_round(self@, *start, acc, queue@, src_done, coord_with_max_distance.0, coord_with_max_distance.1);
                acc.lemma_bounds();
            }
            let (coord, cost) = queue.pop_back().unwrap();
            proof {
                assert(queue@ == pre_queue.drop_last());
                assert((coord, cost) == pre_queue.last());
            }
            if coord_with_max_distance.1 < cost {
                coord_with_max_distance = (coord, cost);
            }
            let other = self.unseen_from(coord, &acc);
            self.queue_unseen(
                &mut queue,
                &mut acc,
                &other,
                cost,
                Ghost(*start),
                Ghost(pre_acc),
                Ghost(coord),
                Ghost(src_done),
                Ghost(coord_with_max_distance.0),
                Ghost(coord_with_max_distance.1),
            );
            proof {
                lemma_end_search_round(self@, *start, acc, queue@, pre_acc, coord, cost, src_done, coord_with_max_distance.0, coord_with_max_distance.1, other@);
                src_done = true;
                acc.lemma_bounds();
                assert(search_run(self@, pre_queue, pre_acc, pre_best.0, pre_best.1, (total - rounds) as nat)
                    == search_run(self@, queue@, acc@, coord_with_max_distance.0, coord_with_max_distance.1, (total - rounds - 1) as nat));
                rounds = rounds + 1;
            }
        }
        proof {
            reveal(search_state);
            assert(queue@ =~= Seq::<(Coord, usize)>::empty());
            lemma_farthest_result(self@, *start, acc, coord_with_max_distance.0, coord_with_max_distance.1);
        }
        coord_with_max_distance.0
    }
}

/// When the search has closed every found coordinate, the best one is a farthest coordinate.
pub proof fn lemma_farthest_result(m: MazeView, start: Coord, acc: CoordSet, best: Coord, best_cost: usize)
    requires
        search_state(m, start, acc, Seq::empty(), true, best, best_cost),
    ensures
        m.farthest_from(start, best),
{
    reveal(search_state);
    reveal(search_round);
    let allowed = other_than(start);
    let marked = seen_marks(acc@, start);
    reveal(source_closed);
    reveal(closed_except);
    reveal(processed_within);
    assert forall|a: Coord, b: Coord| #[trigger] marked(a) && m.is_step(a, b) && allowed(b) implies #[trigger] marked(b) by {
        assert(!queued(Seq::empty(), a));
    }
    assert forall|y: Coord, j: nat| #[trigger] m.is_dist(allowed, start, y, j) implies j <= best_cost by {
        lemma_closed_contains_reachable(m, allowed, start, marked, y, j);
        assert(!queued(Seq::<(Coord, usize)>::empty(), y));
    }
    if best_cost == 0 {
        assert forall|y: Coord| !#[trigger] m.reachable(allowed, start, y) by {
            if m.reachable(allowed, start, y) {
                let k = crate::paths::lemma_reachable_has_dist(m, allowed, start, y);
                assert(k <= best_cost);
            }
        }
        if best != start {
            assert(m.is_dist(allowed, start, best, 0));
        }
    } else {
        assert(m.is_dist(allowed, start, best, best_cost as nat));
    }
}

} // verus!
