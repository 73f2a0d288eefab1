use vstd::prelude::*;

use crate::maze::{Coord, Direction, MazeView};

verus! {

impl MazeView {
    /// The coordinate that the search reaches from `p` by a step in direction `d`: the cell
    /// found for `p` (its components converted to `i32`, as the lookup does) must exist and the
    /// step from it must be open.
    pub open spec fn succ(self, p: Coord, d: Direction) -> Option<Coord> {
        match self.lookup((p.0 as i32) as int, (p.1 as i32) as int) {
            Some(cell) => match self.neighbor(cell, d) {
                Some(n) => Some(n.coord),
                None => None,
            },
            None => None,
        }
    }

    /// One step leads from `p` to `q`.
    pub open spec fn is_step(self, p: Coord, q: Coord) -> bool {
        ||| self.succ(p, Direction::South) == Some(q)
        ||| self.succ(p, Direction::West) == Some(q)
        ||| self.succ(p, Direction::North) == Some(q)
        ||| self.succ(p, Direction::East) == Some(q)
    }

    /// `w` is a walk of steps whose coordinates after the first all satisfy `allowed`.
    pub open spec fn is_walk(self, allowed: spec_fn(Coord) -> bool, w: Seq<Coord>) -> bool {
        &&& w.len() >= 1
        &&& forall|i: int| 1 <= i < w.len() ==> allowed(#[trigger] w[i])
        &&& forall|i: int| 0 <= i < w.len() - 1 ==> self.is_step(#[trigger] w[i], w[i + 1])
    }

    /// A walk of `k` steps leads from `s` to `x`.
    pub open spec fn reach(self, allowed: spec_fn(Coord) -> bool, s: Coord, x: Coord, k: nat) -> bool {
        exists|w: Seq<Coord>|
            #[trigger] self.is_walk(allowed, w) && w.len() == k + 1 && w[0] == s && w[k as int]
                == x
    }

    /// `x` can be reached from `s` by a walk of at least one step.
    pub open spec fn reachable(self, allowed: spec_fn(Coord) -> bool, s: Coord, x: Coord) -> bool {
        exists|k: nat| k >= 1 && #[trigger] self.reach(allowed, s, x, k)
    }

    /// `k` is the least number of steps, at least one, of a walk from `s` to `x`.
    pub open spec fn is_dist(self, allowed: spec_fn(Coord) -> bool, s: Coord, x: Coord, k: nat) -> bool {
        &&& k >= 1
        &&& self.reach(allowed, s, x, k)
        &&& forall|j: nat| 1 <= j < k ==> !#[trigger] self.reach(allowed, s, x, j)
    }

    /// The two mazes have the same walls.
    pub open spec fn same_walls(self, other: MazeView) -> bool {
        &&& self.hwalls == other.hwalls
        &&& self.vwalls == other.vwalls
    }
}

/// The steps of a maze depend on its walls only.
pub proof fn lemma_succ_same_walls(m1: MazeView, m2: MazeView, p: Coord, d: Direction)
    requires
        m1.same_walls(m2),
    ensures
        m1.succ(p, d) == m2.succ(p, d),
{
}

pub proof fn lemma_step_same_walls(m1: MazeView, m2: MazeView)
    requires
        m1.same_walls(m2),
    ensures
        forall|p: Coord, q: Coord| #[trigger] m1.is_step(p, q) == m2.is_step(p, q),
{
    assert forall|p: Coord, q: Coord| #[trigger] m1.is_step(p, q) == m2.is_step(p, q) by {
        lemma_succ_same_walls(m1, m2, p, Direction::South);
        lemma_succ_same_walls(m1, m2, p, Direction::West);
        lemma_succ_same_walls(m1, m2, p, Direction::North);
        lemma_succ_same_walls(m1, m2, p, Direction::East);
    }
}

/// Walks, and so distances, depend on the walls only.
pub proof fn lemma_walk_same_walls(m1: MazeView, m2: MazeView, allowed: spec_fn(Coord) -> bool, w: Seq<Coord>)
    requires
        m1.same_walls(m2),
    ensures
        m1.is_walk(allowed, w) == m2.is_walk(allowed, w),
{
    assert forall|p: Coord, q: Coord| m1.is_step(p, q) == m2.is_step(p, q) by {
        lemma_succ_same_walls(m1, m2, p, Direction::South);
        lemma_succ_same_walls(m1, m2, p, Direction::West);
        lemma_succ_same_walls(m1, m2, p, Direction::North);
        lemma_succ_same_walls(m1, m2, p, Direction::East);
    }
}

pub proof fn lemma_reach_same_walls(
    m1: MazeView,
    m2: MazeView,
    allowed: spec_fn(Coord) -> bool,
    s: Coord,
    x: Coord,
    k: nat,
)
    requires
        m1.same_walls(m2),
    ensures
        m1.reach(allowed, s, x, k) == m2.reach(allowed, s, x, k),
{
    if m1.reach(allowed, s, x, k) {
        let w = choose|w: Seq<Coord>|
            #[trigger] m1.is_walk(allowed, w) && w.len() == k + 1 && w[0] == s && w[k as int] == x;
        lemma_walk_same_walls(m1, m2, allowed, w);
    }
    if m2.reach(allowed, s, x, k) {
        let w = choose|w: Seq<Coord>|
            #[trigger] m2.is_walk(allowed, w) && w.len() == k + 1 && w[0] == s && w[k as int] == x;
        lemma_walk_same_walls(m1, m2, allowed, w);
    }
}

/// A step to an allowed coordinate extends a walk by one step (a walk of no steps stands at
/// `s`).
pub proof fn lemma_reach_extend(
    m: MazeView,
    allowed: spec_fn(Coord) -> bool,
    s: Coord,
    p: Coord,
    c: nat,
    y: Coord,
)
    requires
        (c == 0 && p == s) || m.reach(allowed, s, p, c),
        m.is_step(p, y),
        allowed(y),
    ensures
        m.reach(allowed, s, y, c + 1),
{
    if m.reach(allowed, s, p, c) {
        let w = choose|w: Seq<Coord>|
            #[trigger] m.is_walk(allowed, w) && w.len() == c + 1 && w[0] == s && w[c as int] == p;
        let w2 = w.push(y);
        assert(m.is_walk(allowed, w2));
        assert(w2[(c + 1) as int] == y);
    } else {
        let w2 = seq![s, y];
        assert(m.is_walk(allowed, w2));
        assert(w2[(c + 1) as int] == y);
    }
}

/// The last step of a walk: a walk of `k + 1` steps to `y` ends with a step to the allowed `y`
/// from `s` (when `k` is 0) or from a coordinate that a walk of `k` steps reaches.
pub proof fn lemma_reach_last_step(
    m: MazeView,
    allowed: spec_fn(Coord) -> bool,
    s: Coord,
    y: Coord,
    k: nat,
) -> (z: Coord)
    requires
        m.reach(allowed, s, y, k + 1),
    ensures
        allowed(y),
        m.is_step(z, y),
        k == 0 ==> z == s,
        k >= 1 ==> m.reach(allowed, s, z, k),
{
    let w = choose|w: Seq<Coord>|
        #[trigger] m.is_walk(allowed, w) && w.len() == k + 2 && w[0] == s && w[k + 1int] == y;
    assert(allowed(w[k + 1int]));
    assert(m.is_step(w[k as int], w[k + 1int]));
    let z = w[k as int];
    if k >= 1 {
        let w2 = w.take(k + 1int);
        assert(m.is_walk(allowed, w2));
        assert(w2[k as int] == z);
    }
    z
}

/// Distances are unique.
pub proof fn lemma_dist_unique(
    m: MazeView,
    allowed: spec_fn(Coord) -> bool,
    s: Coord,
    x: Coord,
    k1: nat,
    k2: nat,
)
    requires
        m.is_dist(allowed, s, x, k1),
        m.is_dist(allowed, s, x, k2),
    ensures
        k1 == k2,
{
    if k1 < k2 {
        assert(!m.reach(allowed, s, x, k1));
    }
    if k2 < k1 {
        assert(!m.reach(allowed, s, x, k2));
    }
}

/// A reachable coordinate has a distance.
pub proof fn lemma_reachable_has_dist(m: MazeView, allowed: spec_fn(Coord) -> bool, s: Coord, x: Coord) -> (k: nat)
    requires
        m.reachable(allowed, s, x),
    ensures
        m.is_dist(allowed, s, x, k),
{
    let k0 = choose|k: nat| k >= 1 && #[trigger] m.reach(allowed, s, x, k);
    lemma_least_reach(m, allowed, s, x, k0, 1)
}

proof fn lemma_least_reach(m: MazeView, allowed: spec_fn(Coord) -> bool, s: Coord, x: Coord, k0: nat, j: nat) -> (k: nat)
    requires
        1 <= j <= k0,
        m.reach(allowed, s, x, k0),
        forall|i: nat| 1 <= i < j ==> !#[trigger] m.reach(allowed, s, x, i),
    ensures
        m.is_dist(allowed, s, x, k),
    decreases k0 - j,
{
    if m.reach(allowed, s, x, j) {
        j
    } else {
        assert forall|i: nat| 1 <= i < j + 1 implies !#[trigger] m.reach(allowed, s, x, i) by {}
        lemma_least_reach(m, allowed, s, x, k0, j + 1)
    }
}

/// A set of coordinates that contains every allowed step target of `s` and of each of its own
/// members contains every coordinate reachable from `s`.
pub proof fn lemma_closed_contains_reachable(
    m: MazeView,
    allowed: spec_fn(Coord) -> bool,
    s: Coord,
    marked: spec_fn(Coord) -> bool,
    y: Coord,
    k: nat,
)
    requires
        forall|q: Coord| m.is_step(s, q) && allowed(q) ==> #[trigger] marked(q),
        forall|p: Coord, q: Coord|
            #[trigger] marked(p) && m.is_step(p, q) && allowed(q) ==> #[trigger] marked(q),
        k >= 1,
        m.reach(allowed, s, y, k),
    ensures
        marked(y),
    decreases k,
{
    let z = lemma_reach_last_step(m, allowed, s, y, (k - 1) as nat);
    if k >= 2 {
        lemma_closed_contains_reachable(m, allowed, s, marked, z, (k - 1) as nat);
    }
}


// The state of a breadth-first search from `s` over walks through `allowed` coordinates. The
// queue holds `(coordinate, steps)` entries; the next entry to take is the last one.

/// Some entry of the queue is at `z`.
pub open spec fn queued(queue: Seq<(Coord, usize)>, z: Coord) -> bool {
    exists|i: int| 0 <= i < queue.len() && (#[trigger] queue[i]).0 == z
}

/// Every allowed step target of `s` is marked.
#[verifier::opaque]
pub open spec fn source_closed(
    m: MazeView,
    allowed: spec_fn(Coord) -> bool,
    s: Coord,
    marked: spec_fn(Coord) -> bool,
) -> bool {
    forall|q: Coord| #[trigger] m.is_step(s, q) && allowed(q) ==> marked(q)
}

/// Every coordinate that a walk of `1..=c` steps reaches is marked.
#[verifier::opaque]
pub open spec fn complete_to(
    m: MazeView,
    allowed: spec_fn(Coord) -> bool,
    s: Coord,
    marked: spec_fn(Coord) -> bool,
    c: int,
) -> bool {
    forall|y: Coord, j: nat| 1 <= j <= c && #[trigger] m.reach(allowed, s, y, j) ==> marked(y)
}

/// Every marked coordinate that is not queued (other than `skip`) has all its allowed step
/// targets marked.
#[verifier::opaque]
pub open spec fn closed_except(
    m: MazeView,
    allowed: spec_fn(Coord) -> bool,
    marked: spec_fn(Coord) -> bool,
    queue: Seq<(Coord, usize)>,
    skip: Option<Coord>,
) -> bool {
    forall|z: Coord, q: Coord|
        #[trigger] marked(z) && Some(z) != skip && !queued(queue, z) && #[trigger] m.is_step(z, q)
            && allowed(q) ==> marked(q)
}

/// Every entry is at a marked coordinate and holds its distance, which lies in `lo..=hi`.
#[verifier::opaque]
pub open spec fn entries_exact(
    m: MazeView,
    allowed: spec_fn(Coord) -> bool,
    s: Coord,
    marked: spec_fn(Coord) -> bool,
    queue: Seq<(Coord, usize)>,
    lo: int,
    hi: int,
) -> bool {
    forall|i: int|
        0 <= i < queue.len() ==> {
            let (p, k) = #[trigger] queue[i];
            &&& marked(p)
            &&& 1 <= k
            &&& lo <= k <= hi
            &&& m.is_dist(allowed, s, p, k as nat)
        }
}

/// The steps of the entries do not grow towards the end of the queue.
#[verifier::opaque]
pub open spec fn descending(queue: Seq<(Coord, usize)>) -> bool {
    forall|i: int, j: int| 0 <= i <= j < queue.len() ==> #[trigger] queue[i].1 >= #[trigger] queue[j].1
}

/// Marking more coordinates keeps the closure facts.
pub proof fn lemma_marks_grow(
    m: MazeView,
    allowed: spec_fn(Coord) -> bool,
    s: Coord,
    marked1: spec_fn(Coord) -> bool,
    marked2: spec_fn(Coord) -> bool,
    c: int,
)
    requires
        forall|q: Coord| #[trigger] marked1(q) ==> marked2(q),
    ensures
        source_closed(m, allowed, s, marked1) ==> source_closed(m, allowed, s, marked2),
        complete_to(m, allowed, s, marked1, c) ==> complete_to(m, allowed, s, marked2, c),
{
    reveal(source_closed);
    reveal(complete_to);
}

/// Taking the last entry `(p, c)` of the queue: the rest keeps its facts, with `p` left aside.
pub proof fn lemma_take_entry(
    m: MazeView,
    allowed: spec_fn(Coord) -> bool,
    s: Coord,
    marked: spec_fn(Coord) -> bool,
    queue: Seq<(Coord, usize)>,
)
    requires
        queue.len() > 0,
        entries_exact(m, allowed, s, marked, queue, queue.last().1 as int, queue.last().1 + 1),
        descending(queue),
        closed_except(m, allowed, marked, queue, None),
    ensures
        entries_exact(m, allowed, s, marked, queue.drop_last(), queue.last().1 as int, queue.last().1 + 1),
        descending(queue.drop_last()),
        closed_except(m, allowed, marked, queue.drop_last(), Some(queue.last().0)),
        marked(queue.last().0),
        queue.last().1 >= 1,
        m.is_dist(allowed, s, queue.last().0, queue.last().1 as nat),
{
    reveal(entries_exact);
    reveal(descending);
    reveal(closed_except);
    let rest = queue.drop_last();
    assert(queue[queue.len() - 1] == queue.last());
    assert forall|i: int| 0 <= i < rest.len() implies #[trigger] rest[i] == queue[i] by {}
    assert forall|z: Coord, q: Coord|
        #[trigger] marked(z) && Some(z) != Some(queue.last().0) && !queued(rest, z) && #[trigger] m.is_step(z, q)
            && allowed(q) implies marked(q) by {
        if queued(queue, z) {
            let i = choose|i: int| 0 <= i < queue.len() && (#[trigger] queue[i]).0 == z;
            assert(rest[i] == queue[i]);
        }
    }
}

/// Marking `y` at distance `c + 1` and putting `(y, c + 1)` in front of the queue.
pub proof fn lemma_add_entry(
    m: MazeView,
    allowed: spec_fn(Coord) -> bool,
    s: Coord,
    marked: spec_fn(Coord) -> bool,
    marked2: spec_fn(Coord) -> bool,
    queue: Seq<(Coord, usize)>,
    p: Coord,
    c: nat,
    y: Coord,
)
    requires
        entries_exact(m, allowed, s, marked, queue, c as int, c + 1int),
        descending(queue),
        closed_except(m, allowed, marked, queue, Some(p)),
        complete_to(m, allowed, s, marked, c as int),
        (c == 0 && p == s) || m.is_dist(allowed, s, p, c),
        m.is_step(p, y),
        allowed(y),
        !marked(y),
        c + 1 <= usize::MAX,
        marked2(y),
        forall|q: Coord| q != y ==> #[trigger] marked2(q) == marked(q),
    ensures
        m.is_dist(allowed, s, y, c + 1),
        entries_exact(m, allowed, s, marked2, seq![(y, (c + 1) as usize)] + queue, c as int, c + 1int),
        descending(seq![(y, (c + 1) as usize)] + queue),
        closed_except(m, allowed, marked2, seq![(y, (c + 1) as usize)] + queue, Some(p)),
        complete_to(m, allowed, s, marked2, c as int),
{
    reveal(entries_exact);
    reveal(descending);
    reveal(closed_except);
    reveal(complete_to);
    lemma_reach_extend(m, allowed, s, p, c, y);
    assert forall|j: nat| 1 <= j < c + 1 implies !#[trigger] m.reach(allowed, s, y, j) by {}
    let q2 = seq![(y, (c + 1) as usize)] + queue;
    assert forall|i: int| 0 <= i < queue.len() implies #[trigger] q2[i + 1] == queue[i] by {}
    assert forall|i: int| 0 <= i < q2.len() implies {
        let (p, k) = #[trigger] q2[i];
        &&& marked2(p)
        &&& 1 <= k
        &&& c <= k <= c + 1
        &&& m.is_dist(allowed, s, p, k as nat)
    } by {
        if i > 0 {
            assert(q2[i] == queue[i - 1]);
            let (p, k) = queue[i - 1];
            assert(marked(p));
        }
    }
    assert forall|a: int, b: int| 0 <= a <= b < q2.len() implies #[trigger] q2[a].1 >= #[trigger] q2[b].1 by {
        if a > 0 {
            assert(q2[a] == queue[a - 1]);
            assert(q2[b] == queue[b - 1]);
        } else if b > 0 {
            assert(q2[b] == queue[b - 1]);
        }
    }
    assert forall|z: Coord, q: Coord|
        #[trigger] marked2(z) && Some(z) != Some(p) && !queued(q2, z) && #[trigger] m.is_step(z, q)
            && allowed(q) implies marked2(q) by {
        assert(q2[0].0 == y);
        if z != y {
            assert(marked(z));
            if queued(queue, z) {
                let i = choose|i: int| 0 <= i < queue.len() && (#[trigger] queue[i]).0 == z;
                assert(q2[i + 1] == queue[i]);
            }
            assert(marked(q));
        }
    }
}

/// After all allowed step targets of `p` (taken at `c` steps) are marked, the queue facts hold
/// again with nothing left aside, and the search has found every coordinate up to the steps of
/// its next entry.
pub proof fn lemma_entry_done(
    m: MazeView,
    allowed: spec_fn(Coord) -> bool,
    s: Coord,
    marked: spec_fn(Coord) -> bool,
    queue: Seq<(Coord, usize)>,
    p: Coord,
    c: nat,
    source_was_closed: bool,
)
    requires
        entries_exact(m, allowed, s, marked, queue, c as int, c + 1int),
        descending(queue),
        closed_except(m, allowed, marked, queue, Some(p)),
        complete_to(m, allowed, s, marked, c as int),
        (c == 0 && p == s && !source_was_closed) || (source_was_closed && m.is_dist(allowed, s, p, c)),
        source_was_closed ==> source_closed(m, allowed, s, marked),
        forall|q: Coord| #[trigger] m.is_step(p, q) && allowed(q) ==> marked(q),
    ensures
        source_closed(m, allowed, s, marked),
        closed_except(m, allowed, marked, queue, None),
        queue.len() > 0 ==> entries_exact(m, allowed, s, marked, queue, queue.last().1 as int, queue.last().1 + 1),
        queue.len() > 0 ==> complete_to(m, allowed, s, marked, queue.last().1 as int),
{
    reveal(entries_exact);
    reveal(descending);
    reveal(closed_except);
    reveal(complete_to);
    reveal(source_closed);
    if queue.len() > 0 {
        let last = queue.last().1;
        assert(queue[queue.len() - 1] == queue.last());
        assert forall|y: Coord, j: nat| 1 <= j <= last && #[trigger] m.reach(allowed, s, y, j) implies marked(y) by {
            if j > c {
                assert(j == c + 1);
                let z = lemma_reach_last_step(m, allowed, s, y, c);
                if c >= 1 {
                    assert(marked(z));
                    if queued(queue, z) {
                        let i = choose|i: int| 0 <= i < queue.len() && (#[trigger] queue[i]).0 == z;
                        let (q, k) = queue[i];
                        assert(queue[i].1 >= queue[queue.len() - 1].1);
                        assert(m.is_dist(allowed, s, z, k as nat));
                        assert(!m.reach(allowed, s, z, c));
                    }
                }
            }
        }
    }
}


/// Distances depend on the walls only.
#[verifier::rlimit(40)]
pub proof fn lemma_dist_same_walls(
    m1: MazeView,
    m2: MazeView,
    allowed: spec_fn(Coord) -> bool,
    s: Coord,
    y: Coord,
    k: nat,
)
    requires
        m1.same_walls(m2),
    ensures
        m1.is_dist(allowed, s, y, k) == m2.is_dist(allowed, s, y, k),
{
    lemma_reach_same_walls(m1, m2, allowed, s, y, k);
    if m1.is_dist(allowed, s, y, k) {
        assert forall|j: nat| 1 <= j < k implies !#[trigger] m2.reach(allowed, s, y, j) by {
            lemma_reach_same_walls(m1, m2, allowed, s, y, j);
        }
    }
    if m2.is_dist(allowed, s, y, k) {
        assert forall|j: nat| 1 <= j < k implies !#[trigger] m1.reach(allowed, s, y, j) by {
            lemma_reach_same_walls(m1, m2, allowed, s, y, j);
        }
    }
}

/// Being farthest from `start` depends on the walls only.
pub proof fn lemma_farthest_same_walls(m1: MazeView, m2: MazeView, start: Coord, res: Coord)
    requires
        m1.same_walls(m2),
        m1.farthest_from(start, res),
    ensures
        m2.farthest_from(start, res),
{
    let allowed = crate::farthest::other_than(start);
    if res == start && forall|y: Coord| !#[trigger] m1.reachable(allowed, start, y) {
        assert forall|y: Coord| !#[trigger] m2.reachable(allowed, start, y) by {
            if m2.reachable(allowed, start, y) {
                let k = choose|k: nat| k >= 1 && #[trigger] m2.reach(allowed, start, y, k);
                lemma_reach_same_walls(m1, m2, allowed, start, y, k);
                assert(m1.reachable(allowed, start, y));
            }
        }
    } else {
        let k = choose|k: nat|
            #[trigger] m1.is_dist(allowed, start, res, k) && forall|y: Coord, j: nat|
                #[trigger] m1.is_dist(allowed, start, y, j) ==> j <= k;
        lemma_dist_same_walls(m1, m2, allowed, start, res, k);
        assert forall|y: Coord, j: nat| #[trigger] m2.is_dist(allowed, start, y, j) implies j <= k by {
            lemma_dist_same_walls(m1, m2, allowed, start, y, j);
        }
    }
}


/// Steps go both ways: from a cell of the maze, a step to `q` in direction `d` is answered by a
/// step from `q` back in the opposite direction.
pub proof fn lemma_step_symmetric(m: MazeView, p: Coord, d: Direction, q: Coord)
    requires
        m.shaped(),
        m.in_range(p.0 as int, p.1 as int),
        m.succ(p, d) == Some(q),
    ensures
        m.in_range(q.0 as int, q.1 as int),
        m.succ(q, crate::generate::opposite(d)) == Some(p),
{
    crate::maze::lemma_lookup_placed(m, p.0 as int, p.1 as int);
    let r = p.0 as int + crate::maze::step_row(d);
    let c = p.1 as int + crate::maze::step_col(d);
    assert(m.in_range(r, c));
    crate::maze::lemma_lookup_placed(m, r, c);
}

} // verus!
