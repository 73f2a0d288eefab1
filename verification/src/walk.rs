use vstd::prelude::*;

use crate::connect::{closed_at, nbr, nbr_in};
use crate::maze::{lemma_lookup_placed, Coord, Direction, MazeView};

verus! {

impl MazeView {
    /// `p` and `q` are neighbouring cells and the wall between them is down.
    pub open spec fn open_between(self, p: Coord, q: Coord) -> bool {
        let (r, c) = (p.0 as int, p.1 as int);
        ||| q.0 == p.0 && q.1 == p.1 + 1 && !self.hwalls[r][c + 1]
        ||| q.0 == p.0 && q.1 + 1 == p.1 && !self.hwalls[r][c]
        ||| q.0 == p.0 + 1 && q.1 == p.1 && !self.vwalls[c][r + 1]
        ||| q.0 + 1 == p.0 && q.1 == p.1 && !self.vwalls[c][r]
    }
}

/// `a` and `b` follow each other, in either order, somewhere in `seq`.
pub open spec fn consecutive(seq: Seq<Coord>, a: Coord, b: Coord) -> bool {
    exists|k: int|
        0 <= k < seq.len() - 1 && ((#[trigger] seq[k] == a && seq[k + 1] == b) || (seq[k] == b && seq[k
            + 1] == a))
}

/// Every wall of the `n` by `n` maze `m` that differs from `before` lies between two cells
/// that follow each other in `seq`.
pub open spec fn changes_follow(before: MazeView, m: MazeView, seq: Seq<Coord>, n: int) -> bool {
    &&& forall|r: int, k: int|
        0 <= r < n && 0 <= k <= n && #[trigger] m.hwalls[r][k] != before.hwalls[r][k] ==> 1 <= k < n
            && consecutive(seq, (r as usize, (k - 1) as usize), (r as usize, k as usize))
    &&& forall|c: int, r: int|
        0 <= c < n && 0 <= r <= n && #[trigger] m.vwalls[c][r] != before.vwalls[c][r] ==> 1 <= r < n
            && consecutive(seq, ((r - 1) as usize, c as usize), (r as usize, c as usize))
}

/// Every cell of the `n` by `n` area before `t`, in order of rows then columns, is in `v`.
pub open spec fn first_outside(v: Set<Coord>, t: Coord, n: int) -> bool {
    forall|p: Coord|
        p.0 < n && p.1 < n && (p.0 < t.0 || (p.0 == t.0 && p.1 < t.1)) ==> #[trigger] v.contains(p)
}

/// The walk goes on from the `k`-th cell of `order` to the next through the wall between
/// them; or it had visited every neighbour of the `k`-th cell by then, and the next is the
/// first cell, in order of rows then columns, not visited by then.
pub open spec fn walk_step(m: MazeView, order: Seq<Coord>, k: int, n: int) -> bool {
    ||| m.open_between(order[k], order[k + 1])
    ||| closed_at(order.subrange(0, k + 1).to_set(), order[k], n, n) && first_outside(
        order.subrange(0, k + 1).to_set(),
        order[k + 1],
        n,
    )
}

/// `order` lists every cell of the `n` by `n` area once, in the order in which a random walk
/// visits them: each cell follows the one before through the wall between them, unless every
/// neighbour of the one before had been visited, and then it is the first cell, by rows then
/// columns, not yet visited; and every wall that differs from `before` lies between cells that
/// follow each other.
pub open spec fn walk_order(before: MazeView, m: MazeView, order: Seq<Coord>, n: int) -> bool {
    &&& order.len() == n * n
    &&& order.no_duplicates()
    &&& forall|k: int| 0 <= k < order.len() ==> (#[trigger] order[k]).0 < n && order[k].1 < n
    &&& forall|k: int| 0 <= k < order.len() - 1 ==> #[trigger] walk_step(m, order, k, n)
    &&& changes_follow(before, m, order, n)
}

/// A wall down stays down under carving.
pub proof fn lemma_open_between_kept(m: MazeView, m2: MazeView, p: Coord, q: Coord)
    requires
        m.shaped(),
        m2.hwalls.len() == m.hwalls.len(),
        m2.vwalls.len() == m.vwalls.len(),
        forall|r: int, c: int|
            0 <= r < m.height() && 0 <= c <= m.width() && #[trigger] m2.hwalls[r][c] ==> m.hwalls[r][c],
        forall|c: int, r: int|
            0 <= c < m.width() && 0 <= r <= m.height() && #[trigger] m2.vwalls[c][r] ==> m.vwalls[c][r],
        p.0 < m.height(),
        p.1 < m.width(),
        q.0 < m.height(),
        q.1 < m.width(),
        m.open_between(p, q),
    ensures
        m2.open_between(p, q),
{
}

/// A sequence that grows at its end keeps its pairs that follow each other.
pub proof fn lemma_consecutive_push(seq: Seq<Coord>, x: Coord, a: Coord, b: Coord)
    requires
        consecutive(seq, a, b),
    ensures
        consecutive(seq.push(x), a, b),
{
    let k = choose|k: int|
        0 <= k < seq.len() - 1 && ((#[trigger] seq[k] == a && seq[k + 1] == b) || (seq[k] == b && seq[k
            + 1] == a));
    assert(seq.push(x)[k] == seq[k]);
    assert(seq.push(x)[k + 1] == seq[k + 1]);
}

pub proof fn lemma_changes_follow_push(before: MazeView, m: MazeView, seq: Seq<Coord>, x: Coord, n: int)
    requires
        changes_follow(before, m, seq, n),
    ensures
        changes_follow(before, m, seq.push(x), n),
{
    assert forall|r: int, k: int|
        0 <= r < n && 0 <= k <= n && #[trigger] m.hwalls[r][k] != before.hwalls[r][k] implies 1 <= k < n
            && consecutive(seq.push(x), (r as usize, (k - 1) as usize), (r as usize, k as usize)) by {
        lemma_consecutive_push(seq, x, (r as usize, (k - 1) as usize), (r as usize, k as usize));
    }
    assert forall|c: int, r: int|
        0 <= c < n && 0 <= r <= n && #[trigger] m.vwalls[c][r] != before.vwalls[c][r] implies 1 <= r < n
            && consecutive(seq.push(x), ((r - 1) as usize, c as usize), (r as usize, c as usize)) by {
        lemma_consecutive_push(seq, x, ((r - 1) as usize, c as usize), (r as usize, c as usize));
    }
}

/// Taking down the wall from cell `p` towards `s`, the last cell of `seq`: the wall between
/// them is down, and every changed wall lies between cells that follow each other in `seq`
/// with `p` appended.
pub proof fn lemma_walk_open(before: MazeView, m: MazeView, seq: Seq<Coord>, p: Coord, d: Direction, n: int)
    requires
        m.shaped(),
        m.height() == n,
        m.width() == n,
        n <= i32::MAX,
        p.0 < n,
        p.1 < n,
        nbr_in(p, d, n, n),
        seq.len() >= 1,
        seq.last() == nbr(p, d),
        changes_follow(before, m, seq, n),
    ensures
        m.with_cell_wall(p.0, p.1, Some(d), false).open_between(nbr(p, d), p),
        changes_follow(before, m.with_cell_wall(p.0, p.1, Some(d), false), seq.push(p), n),
{
    let r = p.0 as int;
    let c = p.1 as int;
    let s = nbr(p, d);
    assert((p.0 as i32) as int == r);
    assert((p.1 as i32) as int == c);
    assert((m.hwalls.len() as i32) as int == n);
    assert((m.vwalls.len() as i32) as int == n);
    lemma_lookup_placed(m, r, c);
    assert(m.hwalls[r].len() == n + 1);
    assert(m.vwalls[c].len() == n + 1);
    let m2 = m.with_cell_wall(p.0, p.1, Some(d), false);
    let seq2 = seq.push(p);
    lemma_changes_follow_push(before, m, seq, p, n);
    let last = seq.len() - 1;
    assert(seq2[last] == s);
    assert(seq2[last + 1] == p);
    match d {
        Direction::North => {
            assert(s == ((r - 1) as usize, c as usize));
            assert(m2.hwalls == m.hwalls);
            assert(consecutive(seq2, ((r - 1) as usize, c as usize), (r as usize, c as usize)));
            assert forall|cc: int, rr: int|
                0 <= cc < n && 0 <= rr <= n && #[trigger] m2.vwalls[cc][rr] != before.vwalls[cc][rr] implies 1
                    <= rr < n && consecutive(seq2, ((rr - 1) as usize, cc as usize), (rr as usize, cc as usize)) by {
                if cc != c || rr != r {
                    assert(m2.vwalls[cc][rr] == m.vwalls[cc][rr]);
                }
            }
            assert(m2.open_between(s, p)) by {
                assert(!m2.vwalls[c][(r - 1) + 1]);
            }
        },
        Direction::South => {
            assert(s == ((r + 1) as usize, c as usize));
            assert(m2.hwalls == m.hwalls);
            assert(consecutive(seq2, (r as usize, c as usize), ((r + 1) as usize, c as usize)));
            assert forall|cc: int, rr: int|
                0 <= cc < n && 0 <= rr <= n && #[trigger] m2.vwalls[cc][rr] != before.vwalls[cc][rr] implies 1
                    <= rr < n && consecutive(seq2, ((rr - 1) as usize, cc as usize), (rr as usize, cc as usize)) by {
                if cc != c || rr != r + 1 {
                    assert(m2.vwalls[cc][rr] == m.vwalls[cc][rr]);
                }
            }
            assert(m2.open_between(s, p)) by {
                assert(!m2.vwalls[c][r + 1]);
            }
        },
        Direction::East => {
            assert(s == (r as usize, (c + 1) as usize));
            assert(m2.vwalls == m.vwalls);
            assert(consecutive(seq2, (r as usize, c as usize), (r as usize, (c + 1) as usize)));
            assert forall|rr: int, k: int|
                0 <= rr < n && 0 <= k <= n && #[trigger] m2.hwalls[rr][k] != before.hwalls[rr][k] implies 1 <= k
                    < n && consecutive(seq2, (rr as usize, (k - 1) as usize), (rr as usize, k as usize)) by {
                if rr != r || k != c + 1 {
                    assert(m2.hwalls[rr][k] == m.hwalls[rr][k]);
                }
            }
            assert(m2.open_between(s, p)) by {
                assert(!m2.hwalls[r][c + 1]);
            }
        },
        Direction::West => {
            assert(s == (r as usize, (c - 1) as usize));
            assert(m2.vwalls == m.vwalls);
            assert(consecutive(seq2, (r as usize, (c - 1) as usize), (r as usize, c as usize)));
            assert forall|rr: int, k: int|
                0 <= rr < n && 0 <= k <= n && #[trigger] m2.hwalls[rr][k] != before.hwalls[rr][k] implies 1 <= k
                    < n && consecutive(seq2, (rr as usize, (k - 1) as usize), (rr as usize, k as usize)) by {
                if rr != r || k != c {
                    assert(m2.hwalls[rr][k] == m.hwalls[rr][k]);
                }
            }
            assert(m2.open_between(s, p)) by {
                assert(!m2.hwalls[r][(c - 1) + 1]);
            }
        },
    }
}

/// The state of a random walk over an `n` by `n` area that has visited the cells of `order`,
/// in that order (the set `v` of `size` members), and stands on `start`, not yet visited: the
/// walk steps of `walk_order` hold so far, `start` follows the last visited cell in the same
/// way, and the walls that differ from `before` lie between cells that follow each other in
/// `order` followed by `start`.
#[verifier::opaque]
pub open spec fn walk_progress(
    before: MazeView,
    m: MazeView,
    v: Set<Coord>,
    size: nat,
    order: Seq<Coord>,
    start: Coord,
    n: int,
) -> bool {
    &&& order.no_duplicates()
    &&& forall|k: int| 0 <= k < order.len() ==> (#[trigger] order[k]).0 < n && order[k].1 < n
    &&& forall|p: Coord| #[trigger] v.contains(p) <==> order.contains(p)
    &&& order.len() == size
    &&& forall|k: int| 0 <= k < order.len() - 1 ==> #[trigger] walk_step(m, order, k, n)
    &&& order.len() > 0 ==> m.open_between(order.last(), start) || (closed_at(
        order.to_set(),
        order.last(),
        n,
        n,
    ) && first_outside(order.to_set(), start, n))
    &&& changes_follow(before, m, order.push(start), n)
}

pub proof fn lemma_walk_begin(before: MazeView, start: Coord, n: int)
    ensures
        walk_progress(before, before, Set::empty(), 0, Seq::empty(), start, n),
{
    reveal(walk_progress);
}

/// Visiting `s` keeps the state: the new pair of cells that follow each other is the one
/// from the last visited cell to `s`.
proof fn lemma_walk_visit(
    before: MazeView,
    m: MazeView,
    v: Set<Coord>,
    size: nat,
    order: Seq<Coord>,
    s: Coord,
    n: int,
)
    requires
        walk_progress(before, m, v, size, order, s, n),
        s.0 < n,
        s.1 < n,
        !v.contains(s),
    ensures
        order.push(s).no_duplicates(),
        forall|k: int| 0 <= k < order.push(s).len() ==> (#[trigger] order.push(s)[k]).0 < n && order.push(s)[k].1 < n,
        forall|p: Coord| #[trigger] v.insert(s).contains(p) <==> order.push(s).contains(p),
        forall|k: int| 0 <= k < order.push(s).len() - 1 ==> #[trigger] walk_step(m, order.push(s), k, n),
        changes_follow(before, m, order.push(s), n),
        order.push(s).to_set() == v.insert(s),
{
    reveal(walk_progress);
    let o2 = order.push(s);
    crate::coord_set::lemma_push_contains(order, s);
    assert(!order.contains(s));
    assert(o2.no_duplicates()) by {
        assert forall|a: int, b: int| 0 <= a < b < o2.len() implies o2[a] != o2[b] by {
            if b == o2.len() - 1 {
                assert(order.contains(o2[a]));
            } else {
                assert(o2[a] == order[a] && o2[b] == order[b]);
            }
        }
    }
    assert forall|k: int| 0 <= k < o2.len() implies (#[trigger] o2[k]).0 < n && o2[k].1 < n by {
        if k < order.len() {
            assert(o2[k] == order[k]);
        }
    }
    assert forall|k: int| 0 <= k < o2.len() - 1 implies #[trigger] walk_step(m, o2, k, n) by {
        assert(o2[k] == order[k]);
        assert(o2.subrange(0, k + 1) == order.subrange(0, k + 1));
        if k < order.len() - 1 {
            assert(o2[k + 1] == order[k + 1]);
            assert(walk_step(m, order, k, n));
        } else {
            assert(o2[k + 1] == s);
            assert(order.subrange(0, k + 1) == order);
            assert(order.last() == order[k]);
        }
    }
    assert(o2.to_set() =~= v.insert(s));
}

/// A visited cell `s` from which the walk went on to its neighbour `p` through the wall just
/// taken down.
pub proof fn lemma_walk_advance(
    before: MazeView,
    m: MazeView,
    v: Set<Coord>,
    size: nat,
    order: Seq<Coord>,
    p: Coord,
    d: Direction,
    n: int,
)
    requires
        walk_progress(before, m, v, size, order, nbr(p, d), n),
        m.shaped(),
        m.height() == n,
        m.width() == n,
        n <= i32::MAX,
        p.0 < n,
        p.1 < n,
        nbr_in(p, d, n, n),
        !v.contains(nbr(p, d)),
    ensures
        walk_progress(
            before,
            m.with_cell_wall(p.0, p.1, Some(d), false),
            v.insert(nbr(p, d)),
            size + 1,
            order.push(nbr(p, d)),
            p,
            n,
        ),
{
    let s = nbr(p, d);
    assert(s.0 < n && s.1 < n);
    lemma_walk_visit(before, m, v, size, order, s, n);
    reveal(walk_progress);
    let o2 = order.push(s);
    let m2 = m.with_cell_wall(p.0, p.1, Some(d), false);
    lemma_walk_open(before, m, o2, p, d, n);
    crate::generate::lemma_open_cell_wall_carves(m, p.0, p.1, Some(d));
    assert forall|k: int| 0 <= k < o2.len() - 1 implies #[trigger] walk_step(m2, o2, k, n) by {
        assert(walk_step(m, o2, k, n));
        if m.open_between(o2[k], o2[k + 1]) {
            lemma_open_between_kept(m, m2, o2[k], o2[k + 1]);
        }
    }
    assert(o2.last() == s);
}

/// A visited cell `s` whose neighbours have all been visited, after which the walk goes on
/// from `t`.
pub proof fn lemma_walk_stuck(
    before: MazeView,
    m: MazeView,
    v: Set<Coord>,
    size: nat,
    order: Seq<Coord>,
    s: Coord,
    t: Coord,
    n: int,
)
    requires
        walk_progress(before, m, v, size, order, s, n),
        s.0 < n,
        s.1 < n,
        !v.contains(s),
        closed_at(v.insert(s), s, n, n),
        first_outside(v.insert(s), t, n),
    ensures
        walk_progress(before, m, v.insert(s), size + 1, order.push(s), t, n),
{
    lemma_walk_visit(before, m, v, size, order, s, n);
    reveal(walk_progress);
    let o2 = order.push(s);
    lemma_changes_follow_push(before, m, o2, t, n);
    assert(o2.last() == s);
}

/// When every cell has been visited and the walk stands on the last one, `order` is the visit
/// order of `walk_order`.
pub proof fn lemma_walk_end(before: MazeView, m: MazeView, v: Set<Coord>, order: Seq<Coord>, start: Coord, n: int)
    requires
        walk_progress(before, m, v, (n * n) as nat, order, start, n),
        0 <= n <= i32::MAX,
        order.len() > 0,
        start == order.last(),
    ensures
        walk_order(before, m, order, n),
{
    reveal(walk_progress);
    let seq = order.push(start);
    assert forall|r: int, k: int|
        0 <= r < n && 0 <= k <= n && #[trigger] m.hwalls[r][k] != before.hwalls[r][k] implies 1 <= k < n
            && consecutive(order, (r as usize, (k - 1) as usize), (r as usize, k as usize)) by {
        assert(1 <= k < n);
        assert((k - 1) as usize != k as usize);
        lemma_consecutive_unpush(order, start, (r as usize, (k - 1) as usize), (r as usize, k as usize));
    }
    assert forall|c: int, r: int|
        0 <= c < n && 0 <= r <= n && #[trigger] m.vwalls[c][r] != before.vwalls[c][r] implies 1 <= r < n
            && consecutive(order, ((r - 1) as usize, c as usize), (r as usize, c as usize)) by {
        assert(1 <= r < n);
        assert((r - 1) as usize != r as usize);
        lemma_consecutive_unpush(order, start, ((r - 1) as usize, c as usize), (r as usize, c as usize));
    }
}

proof fn lemma_consecutive_unpush(seq: Seq<Coord>, x: Coord, a: Coord, b: Coord)
    requires
        seq.len() > 0,
        x == seq.last(),
        a != b,
        consecutive(seq.push(x), a, b),
    ensures
        consecutive(seq, a, b),
{
    let s2 = seq.push(x);
    let k = choose|k: int|
        0 <= k < s2.len() - 1 && ((#[trigger] s2[k] == a && s2[k + 1] == b) || (s2[k] == b && s2[k + 1]
            == a));
    if k == seq.len() - 1 {
        assert(s2[k] == x && s2[k + 1] == x);
    } else {
        assert(s2[k] == seq[k] && s2[k + 1] == seq[k + 1]);
    }
}

/// A walk changes no wall on the outer edge.
pub proof fn lemma_walk_order_border(before: MazeView, m: MazeView, order: Seq<Coord>, n: int)
    requires
        walk_order(before, m, order, n),
        m.height() == n,
        m.width() == n,
        before.height() == n,
        before.width() == n,
    ensures
        m.same_border(before),
{
    assert forall|r: int| 0 <= r < m.height() implies m.hwalls[r][0] == before.hwalls[r][0] && m.hwalls[r][m.width()]
        == before.hwalls[r][before.width()] by {
        if m.hwalls[r][0] != before.hwalls[r][0] {
            assert(1 <= 0int);
        }
        if m.hwalls[r][n] != before.hwalls[r][n] {
            assert(n < n);
        }
    }
    assert forall|c: int| 0 <= c < m.width() implies m.vwalls[c][0] == before.vwalls[c][0] && m.vwalls[c][m.height()]
        == before.vwalls[c][before.height()] by {
        if m.vwalls[c][0] != before.vwalls[c][0] {
            assert(1 <= 0int);
        }
        if m.vwalls[c][n] != before.vwalls[c][n] {
            assert(n < n);
        }
    }
}

} // verus!
