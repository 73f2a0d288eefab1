use vstd::prelude::*;
use std::collections::VecDeque;

use crate::connect::{
    closed_at, connected, dfs_connecting, dfs_reached, lemma_closed_fills, lemma_dfs_advance,
    lemma_dfs_done, lemma_dfs_retreat, lemma_dfs_start, lemma_dfs_top, lemma_inner_wall_keeps_boundary,
    lemma_no_next_closed, lemma_offered_all_visited, lemma_reached_close, lemma_reached_merge,
    lemma_reached_open, lemma_reached_start, nbr, nbr_in, square_with, adjacent, walk_settled,
    lemma_no_closed_pair, lemma_settle_step, lemma_settle_stuck, lemma_shared_wall_down,
    lemma_shared_wall_counts, walk_corridors, lemma_inner_open_same_border, lemma_same_border_trans,
    lemma_same_border_refl,
};
use crate::coord_set::CoordSet;
use crate::maze::{
    lemma_below_converted_len, lemma_lookup_placed, lemma_placed_walls, lemma_with_wall_shaped, step_col, step_row, wall_toward,
    Coord, Direction, Maze, MazeView,
};
use crate::random::{random_choice, random_in_range};
use crate::area::{
    area_step_to, lemma_opened_from_area_start, lemma_opened_from_area_step, lemma_opened_from_area_trans,
    opened_from_area, area_closed, area_reaches, area_step, dfs_area_state, lemma_area_state_close, lemma_area_state_merge,
    lemma_area_state_start, lemma_offered_area_closed, lemma_offered_steps,
};
use crate::walk::{
    lemma_walk_advance, lemma_walk_begin, lemma_walk_end, lemma_walk_stuck, walk_order, walk_progress,
};
use crate::spanning::{
    lemma_open_at_most_one, dfs_tree, lemma_all_standing_none_open, lemma_open_within_grows, lemma_take_down_between,
    lemma_tree_advance, lemma_tree_done, lemma_tree_retreat, lemma_tree_start,
};

verus! {

broadcast use vstd::std_specs::vecdeque::group_vec_dequeue_axioms;

/// The coordinate converted to `i32` can be moved by one in every direction without leaving
/// `i32`, as `get_next` does.
pub open spec fn steppable(coord: Coord) -> bool {
    &&& i32::MIN < (coord.0 as i32) < i32::MAX
    &&& i32::MIN < (coord.1 as i32) < i32::MAX
}

/// The step of `get_next` in direction `d`: the coordinate one step away, kept when it lies in
/// `0..width` by `0..height` (first by second component, compared as `i32`) and is not in
/// `acc`.
pub open spec fn next_step(
    coord: Coord,
    acc: Set<Coord>,
    width: usize,
    height: usize,
    d: Direction,
) -> Seq<(Coord, Direction)> {
    let x = (coord.0 as i32) as int + step_row(d);
    let y = (coord.1 as i32) as int + step_col(d);
    if 0 <= x && 0 <= y && y < (height as i32) as int && x < (width as i32) as int && !acc.contains(
        (x as usize, y as usize),
    ) {
        seq![((x as usize, y as usize), d)]
    } else {
        Seq::empty()
    }
}

/// What `get_next` returns: the free steps in the order south, north, east, west.
pub open spec fn next_steps(coord: Coord, acc: Set<Coord>, width: usize, height: usize) -> Seq<
    (Coord, Direction),
> {
    next_step(coord, acc, width, height, Direction::South) + next_step(
        coord,
        acc,
        width,
        height,
        Direction::North,
    ) + next_step(coord, acc, width, height, Direction::East) + next_step(
        coord,
        acc,
        width,
        height,
        Direction::West,
    )
}

/// The direction that undoes a step in direction `d`.
pub open spec fn opposite(d: Direction) -> Direction {
    match d {
        Direction::North => Direction::South,
        Direction::South => Direction::North,
        Direction::East => Direction::West,
        Direction::West => Direction::East,
    }
}

impl MazeView {
    /// `self` came from `before` by taking walls down only: the sizes, costs, start and end are
    /// the same, and no wall stands in `self` that did not stand in `before`.
    pub open spec fn carved_from(self, before: MazeView) -> bool {
        &&& self.shaped()
        &&& self.height() == before.height()
        &&& self.width() == before.width()
        &&& self.cost == before.cost
        &&& self.start == before.start
        &&& self.end == before.end
        &&& forall|r: int, c: int|
            0 <= r < self.height() && 0 <= c <= self.width() && #[trigger] self.hwalls[r][c]
                ==> before.hwalls[r][c]
        &&& forall|c: int, r: int|
            0 <= c < self.width() && 0 <= r <= self.height() && #[trigger] self.vwalls[c][r]
                ==> before.vwalls[c][r]
    }
}

pub proof fn lemma_carved_refl(m: MazeView)
    requires
        m.shaped(),
    ensures
        m.carved_from(m),
{
}

pub proof fn lemma_carved_trans(a: MazeView, b: MazeView, c: MazeView)
    requires
        b.carved_from(a),
        c.carved_from(b),
    ensures
        c.carved_from(a),
{
    assert forall|r: int, k: int|
        0 <= r < c.height() && 0 <= k <= c.width() && #[trigger] c.hwalls[r][k] implies a.hwalls[r][k] by {
        assert(b.hwalls[r][k]);
    }
    assert forall|k: int, r: int|
        0 <= k < c.width() && 0 <= r <= c.height() && #[trigger] c.vwalls[k][r] implies a.vwalls[k][r] by {
        assert(b.vwalls[k][r]);
    }
}

/// Taking down a wall of a cell only takes walls down.
pub proof fn lemma_open_cell_wall_carves(m: MazeView, r: usize, c: usize, d: Option<Direction>)
    requires
        m.shaped(),
    ensures
        m.with_cell_wall(r, c, d, false).carved_from(m),
{
    match m.lookup((r as i32) as int, (c as i32) as int) {
        Some(cell) => {
            lemma_lookup_placed(m, (r as i32) as int, (c as i32) as int);
            match d {
                Some(dir) => {
                    lemma_placed_walls(m, cell, dir);
                    lemma_with_wall_shaped(m, wall_toward(cell, dir), false);
                },
                None => {},
            }
        },
        None => {},
    }
}

/// Appends the step to `(x, y)` in direction `d` when it lies in the area and is not in `acc`.
fn push_next_step(
    out: &mut Vec<(Coord, Direction)>,
    x: i32,
    y: i32,
    d: Direction,
    acc: &CoordSet,
    width: usize,
    height: usize,
)
    requires
        acc.wf(),
    ensures
        final(out)@ == old(out)@ + (if 0 <= x && 0 <= y && y < (height as i32) && x < (width as i32)
            && !acc@.contains((x as usize, y as usize)) {
            seq![((x as usize, y as usize), d)]
        } else {
            Seq::empty()
        }),
{
    if (x >= 0 && y >= 0 && y < height as i32 && x < width as i32) && !acc.contains(
        &(x as usize, y as usize),
    ) {
        out.push(((x as usize, y as usize), d));
    }
    assert(out@ =~= old(out)@ + (if 0 <= x && 0 <= y && y < (height as i32) && x < (width as i32)
        && !acc@.contains((x as usize, y as usize)) {
        seq![((x as usize, y as usize), d)]
    } else {
        Seq::empty()
    }));
}

/// Every step that `get_next` offers leads to a coordinate of the area that is not in `acc`,
/// one step from `coord` in the step's direction.
pub proof fn lemma_next_steps(coord: Coord, acc: Set<Coord>, width: usize, height: usize)
    ensures
        forall|i: int|
            0 <= i < next_steps(coord, acc, width, height).len() ==> {
                let (p, d) = #[trigger] next_steps(coord, acc, width, height)[i];
                &&& 0 <= p.0 < (width as i32)
                &&& 0 <= p.1 < (height as i32)
                &&& p.0 < width
                &&& p.1 < height
                &&& !acc.contains(p)
                &&& p.0 as int == (coord.0 as i32) as int + step_row(d)
                &&& p.1 as int == (coord.1 as i32) as int + step_col(d)
            },
{
    assert forall|i: int| 0 <= i < next_steps(coord, acc, width, height).len() implies {
        let (p, d) = #[trigger] next_steps(coord, acc, width, height)[i];
        &&& 0 <= p.0 < (width as i32)
        &&& 0 <= p.1 < (height as i32)
        &&& p.0 < width
        &&& p.1 < height
        &&& !acc.contains(p)
        &&& p.0 as int == (coord.0 as i32) as int + step_row(d)
        &&& p.1 as int == (coord.1 as i32) as int + step_col(d)
    } by {
        let (p, d) = next_steps(coord, acc, width, height)[i];
        assert(next_step(coord, acc, width, height, d) =~= seq![(p, d)]);
        lemma_below_converted_len(p.0 as int, width as int);
        lemma_below_converted_len(p.1 as int, height as int);
    }
}

impl Maze {
    /// The steps from `coord` to a neighbouring coordinate of the `width` by `height` area that
    /// is not in `acc`, each with its direction, in the order south, north, east, west.
    fn get_next(coord: (usize, usize), acc: &CoordSet, width: usize, height: usize) -> (res: Vec<
        ((usize, usize), Direction),
    >)
        requires
            acc.wf(),
            steppable(coord),
        ensures
            res@ == next_steps(coord, acc@, width, height),
    {
        let (row, col) = coord;
        let mut result: Vec<((usize, usize), Direction)> = Vec::new();
        push_next_step(&mut result, row as i32 + 1, col as i32, Direction::South, acc, width, height);
        push_next_step(&mut result, row as i32 - 1, col as i32, Direction::North, acc, width, height);
        push_next_step(&mut result, row as i32, col as i32 + 1, Direction::East, acc, width, height);
        push_next_step(&mut result, row as i32, col as i32 - 1, Direction::West, acc, width, height);
        assert(result@ =~= next_steps(coord, acc@, width, height));
        result
    }
}


impl Maze {
    /// Carves a maze by a depth-first walk from `start` over the `width` by `height` area:
    /// from the cell on top of the stack it takes down the wall towards a randomly chosen
    /// neighbour that has not been visited and goes on from there, and it steps back when
    /// every neighbour has been visited.
    pub fn generate_maze_via_dfs_heap(&mut self, start: (usize, usize), width: usize, height: usize)
        requires
            old(self)@.shaped(),
            width * height <= usize::MAX,
            steppable(start),
        ensures
            final(self)@.carved_from(old(self)@),
            width == height && square_with(old(self)@, width as int, start) ==> forall|q: Coord|
                q.0 < width && q.1 < width ==> #[trigger] connected(final(self)@, start, q),
            width == height && square_with(old(self)@, width as int, start)
                && old(self)@.boundary_standing() ==> final(self)@.boundary_standing(),
            width == height && square_with(old(self)@, width as int, start)
                && old(self)@.all_walls_standing() ==> final(self)@.open_walls() + 1 == width * width,
            final(self)@.open_walls() <= old(self)@.open_walls() + width * height,
            opened_from_area(old(self)@, final(self)@, width, height),
            width == height && old(self)@.width() == width && old(self)@.height() == width
                ==> final(self)@.same_border(old(self)@),
    {
        let ghost before = self@;
        let ghost bsq = width == height && before.width() == width && before.height() == width;
        let ghost origin = start;
        let ghost n = width as int;
        let ghost sq = width == height && square_with(before, n, origin);
        let ghost tree = sq && before.all_walls_standing();
        let mut start = start;
        let mut stack: VecDeque<(usize, usize)> = VecDeque::with_capacity(width * height);
        let mut acc = CoordSet::new(width, height);
        stack.push_back(start);
        proof {
            lemma_carved_refl(before);
            lemma_same_border_refl(before);
            lemma_opened_from_area_start(before, width, height);
            if sq {
                lemma_dfs_start(before, n, origin);
                assert(acc@ =~= Set::<Coord>::empty());
                assert(stack@ =~= seq![origin]);
                if tree {
                    lemma_tree_start(before, n, origin);
                }
            }
        }
        while stack.len() > 0
            invariant
                self@.carved_from(before),
                before.shaped(),
                width * height <= usize::MAX,
                acc.wf(),
                acc.rows() == width,
                acc.cols() == height,
                forall|i: int| 0 <= i < stack@.len() ==> steppable(#[trigger] stack@[i]),
                forall|i: int|
                    0 <= i < stack@.len() - 1 ==> !(acc.in_grid(#[trigger] stack@[i])
                        && !acc@.contains(stack@[i])),
                n == width,
                sq == (width == height && square_with(before, n, origin)),
                sq ==> dfs_connecting(self@, acc@, stack@, n, origin),
                sq && before.boundary_standing() ==> self@.boundary_standing(),
                tree == (sq && before.all_walls_standing()),
                tree ==> dfs_tree(self@, acc@, acc.size(), stack@, n),
                bsq == (width == height && before.width() == width && before.height() == width),
                bsq ==> self@.same_border(before),
                opened_from_area(before, self@, width, height),
                self@.open_walls() <= before.open_walls() + acc.size() + (if stack@.len() > 0
                    && acc.in_grid(stack@.last()) && !acc@.contains(stack@.last()) {
                    1int
                } else {
                    0int
                }),
            decreases
                3 * (width * height - acc.size()) + stack@.len() - (if stack@.len() > 0
                    && acc.in_grid(stack@.last()) && !acc@.contains(stack@.last()) {
                    2int
                } else {
                    0int
                }),
        {
            proof {
                acc.lemma_bounds();
                if sq {
                    lemma_dfs_top(self@, acc@, stack@, n, origin);
                }
            }
            let ghost pre_stack = stack@;
            let ghost pre_acc = acc@;
            let ghost pre_size = acc.size();
            start = stack.pop_back().unwrap();
            acc.insert(start);
            proof {
                acc.lemma_bounds();
                assert(start == pre_stack.last());
                assert(stack@ == pre_stack.drop_last());
                if sq {
                    assert(acc.in_grid(start));
                    assert(acc@ == pre_acc.insert(start));
                }
            }
            let adj = Self::get_next(start, &acc, width, height);
            proof {
                lemma_next_steps(start, acc@, width, height);
            }
            match random_choice(adj.as_slice()) {
                Some(step) => {
                    let (next, direction) = *step;
                    proof {
                        let i = choose|i: int| 0 <= i < adj@.len() && adj@[i] == (next, direction);
                        assert(adj@[i] == next_steps(start, acc@, width, height)[i]);
                    }
                    let ghost mid = self@;
                    proof {
                        crate::maze::lemma_shaped_settable(self@, start.0, start.1, Some(direction));
                    }
                    self.set_wall_by_cell(start.0, start.1, Some(direction), false);
                    proof {
                        lemma_open_cell_wall_carves(mid, start.0, start.1, Some(direction));
                        lemma_carved_trans(before, mid, self@);
                        lemma_open_at_most_one(mid, start.0, start.1, Some(direction));
                        assert(area_step_to(start, width, height, direction) == Some(next));
                        lemma_opened_from_area_step(before, mid, start, direction, width, height);
                        if bsq {
                            lemma_next_steps(start, acc@, width, height);
                            lemma_inner_open_same_border(mid, start.0, start.1, direction);
                            lemma_same_border_trans(before, mid, self@);
                        }
                        if sq && before.boundary_standing() {
                            assert((start.0 as i32) as int == start.0);
                            assert((start.1 as i32) as int == start.1);
                            assert((mid.hwalls.len() as i32) as int == n);
                            assert((mid.vwalls.len() as i32) as int == n);
                            assert(nbr_in(start, direction, n, n));
                            lemma_inner_wall_keeps_boundary(mid, start.0, start.1, direction);
                        }
                    }
                    stack.push_back(start);
                    stack.push_back(next);
                    proof {
                        if sq {
                            assert((start.0 as i32) as int == start.0);
                            assert((start.1 as i32) as int == start.1);
                            assert(nbr(start, direction) == next);
                            assert(nbr_in(start, direction, n, n));
                            lemma_dfs_advance(mid, self@, pre_acc, pre_stack, n, origin, direction);
                            assert(stack@ == pre_stack.drop_last().push(start).push(next));
                            if tree {
                                assert(!acc@.contains(next));
                                lemma_tree_advance(mid, pre_acc, pre_size, pre_stack, n, direction, acc.size());
                            }
                        }
                    }
                },
                None => {
                    proof {
                        if sq {
                            lemma_no_next_closed(start, acc@, n);
                            lemma_dfs_retreat(self@, pre_acc, pre_stack, n, origin);
                            if tree {
                                if pre_stack.len() > 1 {
                                    assert(!(acc.in_grid(pre_stack[pre_stack.len() - 2])
                                        && !pre_acc.contains(pre_stack[pre_stack.len() - 2])));
                                }
                                lemma_tree_retreat(self@, pre_acc, pre_size, pre_stack, n, acc.size());
                            }
                        }
                    }
                },
            }
        }
        proof {
            acc.lemma_bounds();
            if sq {
                assert(stack@ =~= Seq::<Coord>::empty());
                lemma_dfs_done(self@, acc@, n, origin);
                if tree {
                    lemma_tree_done(self@, acc@, acc.size(), n);
                    acc.lemma_bounds();
                    if acc.size() < acc.rows() * acc.cols() {
                        acc.lemma_gap();
                        let p = choose|p: Coord| acc.in_grid(p) && !acc@.contains(p);
                        assert(acc@.contains(p));
                    }
                }
            }
        }
    }
}

/// `<[T]>::swap` of the standard library exchanges the elements at `a` and `b` and panics when
/// either lies outside the slice. Trusted as documented.
pub assume_specification<T>[ <[T]>::swap ](slice: &mut [T], a: usize, b: usize)
    requires
        a < old(slice)@.len(),
        b < old(slice)@.len(),
    ensures
        final(slice)@ == old(slice)@.update(a as int, old(slice)@[b as int]).update(
            b as int,
            old(slice)@[a as int],
        ),
;

/// Exchanging two entries keeps the multiset of a sequence.
pub proof fn lemma_swap_multiset<Item>(s: Seq<Item>, a: int, b: int)
    requires
        0 <= a < s.len(),
        0 <= b < s.len(),
    ensures
        s.update(a, s[b]).update(b, s[a]).to_multiset() == s.to_multiset(),
{
    broadcast use vstd::seq_lib::to_multiset_update;
    broadcast use vstd::multiset::group_multiset_properties;
    broadcast use vstd::multiset::group_multiset_axioms;
    broadcast use vstd::seq_lib::to_multiset_contains;

    let t = s.update(a, s[b]);
    assert(t.to_multiset() == s.to_multiset().insert(s[b]).remove(s[a]));
    assert(t.update(b, s[a]).to_multiset() == t.to_multiset().insert(s[a]).remove(t[b]));
    if a == b {
        assert(t.update(b, s[a]) =~= s);
    } else {
        assert(t[b] == s[b]);
        let m = s.to_multiset();
        assert(s.contains(s[a]));
        assert(m.count(s[a]) > 0);
        assert forall|v: Item| #[trigger] m.insert(s[b]).remove(s[a]).insert(s[a]).remove(s[b]).count(v) == m.count(v) by {
        }
        assert(t.update(b, s[a]).to_multiset() =~= s.to_multiset());
    }
}

/// `s` after exchanging, for each position `i` of `draws` in turn, the elements at `i` and
/// at `draws[i]`.
pub open spec fn swapped_by<Item>(s: Seq<Item>, draws: Seq<usize>) -> Seq<Item>
    decreases draws.len(),
{
    if draws.len() == 0 {
        s
    } else {
        let t = swapped_by(s, draws.drop_last());
        let i = draws.len() - 1;
        let j = draws.last() as int;
        t.update(i, t[j]).update(j, t[i])
    }
}

/// Draws that each name a position at or after their own, below `len`.
pub open spec fn draws_forward(draws: Seq<usize>, len: int) -> bool {
    forall|i: int| 0 <= i < draws.len() ==> i <= #[trigger] draws[i] < len
}

/// The exchanges keep the length and the multiset of the elements.
pub proof fn lemma_swapped_by_permutes<Item>(s: Seq<Item>, draws: Seq<usize>)
    requires
        draws.len() <= s.len(),
        draws_forward(draws, s.len() as int),
    ensures
        swapped_by(s, draws).len() == s.len(),
        swapped_by(s, draws).to_multiset() == s.to_multiset(),
    decreases draws.len(),
{
    if draws.len() > 0 {
        let d = draws.drop_last();
        assert(draws_forward(d, s.len() as int)) by {
            assert forall|i: int| 0 <= i < d.len() implies i <= #[trigger] d[i] < s.len() by {
                assert(d[i] == draws[i]);
            }
        }
        lemma_swapped_by_permutes(s, d);
        let t = swapped_by(s, d);
        let i = draws.len() - 1;
        assert(i <= draws[i] < s.len());
        lemma_swap_multiset(t, i, draws.last() as int);
    }
}

impl Maze {
    /// Exchanges, for each position `i` in turn, the elements at `i` and at `draws[i]`.
    pub fn shuffle_with<Item>(collection: Vec<Item>, draws: &Vec<usize>) -> (res: Vec<Item>)
        requires
            draws@.len() == collection@.len(),
            forall|i: int| 0 <= i < draws@.len() ==> i <= #[trigger] draws@[i] < collection@.len(),
        ensures
            res@ == swapped_by(collection@, draws@),
    {
        let mut collection = collection;
        let ghost input = collection@;
        let length = collection.len();
        for index in 0..length
            invariant
                length == collection@.len(),
                length == draws@.len(),
                length == input.len(),
                forall|i: int| 0 <= i < draws@.len() ==> i <= #[trigger] draws@[i] < length,
                collection@ == swapped_by(input, draws@.take(index as int)),
        {
            let other = draws[index];
            proof {
                let t = draws@.take(index as int + 1);
                assert(t.drop_last() == draws@.take(index as int));
                assert(t.last() == other);
            }
            collection.swap(index, other);
        }
        assert(draws@.take(length as int) == draws@);
        collection
    }

    /// Puts the elements of `collection` in a random order by exchanging each position with a
    /// randomly chosen position at or after it.
    pub fn shuffle<Item: Default>(collection: Vec<Item>) -> (res: Vec<Item>)
        ensures
            res@.len() == collection@.len(),
            res@.to_multiset() == collection@.to_multiset(),
            exists|d: Seq<usize>|
                d.len() == collection@.len() && draws_forward(d, collection@.len() as int) && res@
                    == #[trigger] swapped_by(collection@, d),
    {
        let length = collection.len();
        let mut draws: Vec<usize> = Vec::new();
        for index in 0..length
            invariant
                draws@.len() == index,
                forall|i: int| 0 <= i < draws@.len() ==> i <= #[trigger] draws@[i] < length,
        {
            let other = random_in_range(index, length);
            draws.push(other);
        }
        let ghost input = collection@;
        let res = Self::shuffle_with(collection, &draws);
        proof {
            assert(draws_forward(draws@, input.len() as int));
            lemma_swapped_by_permutes(input, draws@);
        }
        res
    }
}


/// An element of a sequence with the same multiset is an element of the other sequence.
pub proof fn lemma_same_multiset_member<Item>(a: Seq<Item>, b: Seq<Item>, i: int)
    requires
        a.to_multiset() == b.to_multiset(),
        0 <= i < a.len(),
    ensures
        exists|j: int| 0 <= j < b.len() && b[j] == a[i],
{
    broadcast use vstd::seq_lib::to_multiset_contains;

    assert(a.contains(a[i]));
    assert(a.to_multiset().count(a[i]) > 0);
    assert(b.to_multiset().count(a[i]) > 0);
    assert(b.contains(a[i]));
}

impl Maze {
    /// Carves a maze by a recursive depth-first walk from `start` over the `width` by `height`
    /// area: it marks `start` in `acc`, and for each neighbour not in `acc`, in random order, it
    /// takes down the wall between `start` and the neighbour and continues from there. Returns
    /// the coordinates visited so far.
    pub fn generate_maze_via_dfs(
        &mut self,
        start: (usize, usize),
        acc: CoordSet,
        width: usize,
        height: usize,
    ) -> (res: CoordSet)
        requires
            old(self)@.shaped(),
            acc.wf(),
            acc.rows() == width,
            acc.cols() == height,
            steppable(start),
        ensures
            final(self)@.carved_from(old(self)@),
            opened_from_area(old(self)@, final(self)@, width, height),
            res.wf(),
            res.rows() == width,
            res.cols() == height,
            acc@.subset_of(res@),
            res@.contains(start),
            res.size() >= acc.size(),
            width == height && square_with(old(self)@, width as int, start)
                && old(self)@.boundary_standing() ==> final(self)@.boundary_standing(),
            width == height && old(self)@.width() == width && old(self)@.height() == width
                ==> final(self)@.same_border(old(self)@),
            final(self)@.open_walls() + acc.size() + (if acc.in_grid(start) && !acc@.contains(start) {
                1int
            } else {
                0int
            }) <= old(self)@.open_walls() + res.size(),
            forall|q: Coord|
                #[trigger] res@.contains(q) <==> acc@.contains(q) || area_reaches(acc@, start, q, width, height),
            forall|p: Coord|
                #[trigger] res@.contains(p) && (p == start || !acc@.contains(p)) ==> area_closed(
                    res@,
                    p,
                    width,
                    height,
                ),
            width == height && square_with(old(self)@, width as int, start) ==> forall|p: Coord|
                #[trigger] res@.contains(p) && !acc@.contains(p) ==> connected(final(self)@, start, p)
                    && closed_at(res@, p, width as int, width as int),
            width == height && square_with(old(self)@, width as int, start) && old(self)@.open_within(
                acc@.insert(start),
            ) ==> final(self)@.open_within(res@) && final(self)@.open_walls() + acc.size() + (if acc@.contains(
                start,
            ) {
                0int
            } else {
                1int
            }) == old(self)@.open_walls() + res.size(),
            width == height && square_with(old(self)@, width as int, start) && acc@ == Set::<Coord>::empty()
                ==> forall|q: Coord|
                q.0 < width && q.1 < width ==> #[trigger] connected(final(self)@, start, q) && res@.contains(q),
            width == height && square_with(old(self)@, width as int, start) && acc@ == Set::<Coord>::empty()
                && old(self)@.all_walls_standing() ==> final(self)@.open_walls() + 1 == width * width,
        decreases
            2 * (width * height - acc.size()) + (if acc.in_grid(start) && !acc@.contains(start) {
                0int
            } else {
                1int
            }),
    {
        let ghost before = self@;
        let ghost entry = acc@;
        let ghost entry_size = acc.size();
        let ghost fresh = acc.in_grid(start) && !acc@.contains(start);
        let ghost n = width as int;
        let ghost sq = width == height && square_with(before, n, start);
        let ghost keeps = sq && before.boundary_standing();
        let ghost tr = sq && before.open_within(entry.insert(start));
        let ghost bsq = width == height && before.width() == width && before.height() == width;
        proof {
            lemma_same_border_refl(before);
            lemma_opened_from_area_start(before, width, height);
            acc.lemma_bounds();
            acc.lemma_empty_size();
            lemma_carved_refl(before);
            lemma_reached_start(before, start, entry, n);
            lemma_area_state_start(entry, start, width, height);
        }
        let mut visited = acc;
        visited.insert(start);
        let ghost v0 = visited@;
        let other = Self::get_next(start, &visited, width, height);
        proof {
            lemma_next_steps(start, visited@, width, height);
        }
        let ghost steps = other@;
        let other = Self::shuffle(other);
        proof {
            assert forall|k: int| 0 <= k < other@.len() implies {
                let (p, d) = #[trigger] other@[k];
                &&& 0 <= p.0 < (width as i32)
                &&& 0 <= p.1 < (height as i32)
                &&& p.0 < width
                &&& p.1 < height
                &&& p.0 as int == (start.0 as i32) as int + step_row(d)
                &&& p.1 as int == (start.1 as i32) as int + step_col(d)
            } by {
                lemma_same_multiset_member(other@, steps, k);
                let j = choose|j: int| 0 <= j < steps.len() && steps[j] == other@[k];
                assert(steps[j] == next_steps(start, visited@, width, height)[j]);
            }
            if sq {
                assert(visited@ == entry.insert(start));
            }
        }
        let mut i: usize = 0;
        while i < other.len()
            invariant
                self@.carved_from(before),
                before.shaped(),
                entry == acc@,
                entry_size == acc.size(),
                fresh == (acc.in_grid(start) && !acc@.contains(start)),
                acc.rows() == width,
                acc.cols() == height,
                visited.wf(),
                visited.rows() == width,
                visited.cols() == height,
                entry.subset_of(visited@),
                v0.subset_of(visited@),
                entry_size + (if fresh { 1int } else { 0int }) <= visited.size(),
                visited@.contains(start),
                fresh ==> visited.in_grid(start),
                n == width,
                sq == (width == height && square_with(before, n, start)),
                keeps == (sq && before.boundary_standing()),
                keeps ==> self@.boundary_standing(),
                tr == (sq && before.open_within(entry.insert(start))),
                steps == next_steps(start, v0, width, height),
                other@.to_multiset() == steps.to_multiset(),
                forall|k: int|
                    0 <= k < other@.len() ==> {
                        let (p, d) = #[trigger] other@[k];
                        &&& 0 <= p.0 < (width as i32)
                        &&& 0 <= p.1 < (height as i32)
                        &&& p.0 < width
                        &&& p.1 < height
                        &&& p.0 as int == (start.0 as i32) as int + step_row(d)
                        &&& p.1 as int == (start.1 as i32) as int + step_col(d)
                    },
                forall|k: int| 0 <= k < i ==> visited@.contains((#[trigger] other@[k]).0),
                dfs_area_state(entry, start, visited@, width, height),
                sq ==> dfs_reached(self@, start, entry, visited@, n),
                tr ==> self@.open_within(visited@),
                bsq == (width == height && before.width() == width && before.height() == width),
                bsq ==> self@.same_border(before),
                opened_from_area(before, self@, width, height),
                self@.open_walls() + entry_size + (if fresh { 1int } else { 0int }) <= before.open_walls()
                    + visited.size(),
                tr ==> self@.open_walls() + entry_size + (if fresh { 1int } else { 0int })
                    == before.open_walls() + visited.size(),
            decreases other@.len() - i,
        {
            let ((row, col), direction) = other[i];
            assert(other@[i as int] == ((row, col), direction));
            if !visited.contains(&(row, col)) {
                let ghost mid = self@;
                let ghost pre_visited = visited@;
                proof {
                    crate::maze::lemma_shaped_settable(self@, start.0, start.1, Some(direction));
                }
                self.set_wall_by_cell(start.0, start.1, Some(direction), false);
                proof {
                    lemma_open_cell_wall_carves(mid, start.0, start.1, Some(direction));
                    lemma_carved_trans(before, mid, self@);
                    lemma_open_at_most_one(mid, start.0, start.1, Some(direction));
                    assert(area_step_to(start, width, height, direction) == Some((row, col)));
                    lemma_opened_from_area_step(before, mid, start, direction, width, height);
                    if bsq {
                        lemma_inner_open_same_border(mid, start.0, start.1, direction);
                        lemma_same_border_trans(before, mid, self@);
                    }
                    visited.lemma_bounds();
                    if sq {
                        assert((start.0 as i32) as int == start.0);
                        assert((start.1 as i32) as int == start.1);
                        assert(nbr_in(start, direction, n, n));
                        assert(nbr(start, direction) == (row, col));
                        assert(square_with(mid, n, start));
                        if keeps {
                            assert((mid.hwalls.len() as i32) as int == height);
                            assert((mid.vwalls.len() as i32) as int == width);
                            lemma_inner_wall_keeps_boundary(mid, start.0, start.1, direction);
                        }
                        lemma_reached_open(mid, start, entry, visited@, n, direction);
                        if tr {
                            lemma_take_down_between(mid, visited@, start, direction);
                            assert(visited@.insert((row, col)).insert(start) == visited@.insert((row, col)));
                        }
                    }
                }
                let ghost after_open = self@;
                assert(visited.in_grid((row, col)) && !visited@.contains((row, col)));
                assert(2 * (width * height - visited.size()) < 2 * (width * height - entry_size) + (if fresh { 0int } else { 1int }));
                visited = self.generate_maze_via_dfs((row, col), visited, width, height);
                proof {
                    lemma_carved_trans(before, after_open, self@);
                    lemma_opened_from_area_trans(before, after_open, self@, width, height);
                    if bsq {
                        lemma_same_border_trans(before, after_open, self@);
                    }
                    if sq {
                        assert(square_with(after_open, n, (row, col)));
                        lemma_reached_merge(after_open, self@, start, (row, col), entry, pre_visited, visited@, n);
                    }
                    assert forall|k: int| 0 <= k < i + 1 implies visited@.contains((#[trigger] other@[k]).0) by {
                        if k < i {
                            assert(pre_visited.contains(other@[k].0));
                        }
                    }
                    lemma_same_multiset_member(other@, steps, i as int);
                    lemma_offered_steps(start, v0, width, height);
                    let j = choose|j: int| 0 <= j < steps.len() && steps[j] == other@[i as int];
                    assert(area_step(start, steps[j].0, width, height));
                    lemma_area_state_merge(entry, start, (row, col), pre_visited, visited@, width, height);
                }
            } else {
                proof {
                    assert forall|k: int| 0 <= k < i + 1 implies visited@.contains((#[trigger] other@[k]).0) by {
                    }
                }
            }
            i = i + 1;
        }
        proof {
            lemma_offered_area_closed(start, v0, visited@, other@, width, height);
            lemma_area_state_close(entry, start, visited@, width, height);
            if sq {
                lemma_dfs_rec_finish(self@, before, start, entry, entry_size, fresh, v0, visited, other@, n);
            }
        }
        visited
    }
}

/// What the recursive carving from `start` has done once every offered step was taken: every
/// cell visited since `entry` is connected to `start` and has its neighbours visited; from an
/// empty `entry` every cell is visited and connected, and from a maze whose walls all stood one
/// wall fewer is down than the area has cells.
proof fn lemma_dfs_rec_finish(
    m: MazeView,
    before: MazeView,
    start: Coord,
    entry: Set<Coord>,
    entry_size: nat,
    fresh: bool,
    v0: Set<Coord>,
    visited: CoordSet,
    offered: Seq<(Coord, Direction)>,
    n: int,
)
    requires
        0 <= n <= i32::MAX,
        start.0 < n,
        start.1 < n,
        square_with(before, n, start),
        visited.wf(),
        visited.rows() == n,
        visited.cols() == n,
        v0 == entry.insert(start),
        v0.subset_of(visited@),
        fresh == !entry.contains(start),
        offered.to_multiset() == next_steps(start, v0, n as usize, n as usize).to_multiset(),
        forall|k: int| 0 <= k < offered.len() ==> visited@.contains((#[trigger] offered[k]).0),
        dfs_reached(m, start, entry, visited@, n),
        before.open_within(entry.insert(start)) ==> m.open_within(visited@) && m.open_walls() + entry_size
            + (if fresh {
            1int
        } else {
            0int
        }) == before.open_walls() + visited.size(),
        entry == Set::<Coord>::empty() ==> entry_size == 0,
    ensures
        forall|p: Coord|
            #[trigger] visited@.contains(p) && !entry.contains(p) ==> connected(m, start, p) && closed_at(
                visited@,
                p,
                n,
                n,
            ),
        entry == Set::<Coord>::empty() ==> forall|q: Coord|
            q.0 < n && q.1 < n ==> #[trigger] connected(m, start, q) && visited@.contains(q),
        entry == Set::<Coord>::empty() && before.all_walls_standing() ==> m.open_walls() + 1 == n * n,
{
    lemma_offered_all_visited(start, v0, visited@, offered, n);
    lemma_reached_close(m, start, entry, visited@, n);
    if entry == Set::<Coord>::empty() {
        lemma_dfs_rec_scratch(m, before, start, visited, n);
    }
}

/// The recursive carving from a fresh start visits and connects every cell, and from a maze
/// whose walls all stood leaves one wall fewer down than the area has cells.
proof fn lemma_dfs_rec_scratch(m: MazeView, before: MazeView, start: Coord, visited: CoordSet, n: int)
    requires
        0 <= n,
        start.0 < n,
        start.1 < n,
        square_with(before, n, start),
        visited.wf(),
        visited.rows() == n,
        visited.cols() == n,
        visited@.contains(start),
        forall|p: Coord|
            #[trigger] visited@.contains(p) && !Set::<Coord>::empty().contains(p) ==> connected(m, start, p)
                && closed_at(visited@, p, n, n),
        before.open_within(Set::<Coord>::empty().insert(start)) ==> m.open_within(visited@)
            && m.open_walls() + 0 + 1 == before.open_walls() + visited.size(),
    ensures
        forall|q: Coord| q.0 < n && q.1 < n ==> #[trigger] connected(m, start, q) && visited@.contains(q),
        before.all_walls_standing() ==> m.open_walls() + 1 == n * n,
{
    assert forall|p: Coord| #[trigger] visited@.contains(p) implies connected(m, start, p) && closed_at(
        visited@,
        p,
        n,
        n,
    ) by {
        assert(!Set::<Coord>::empty().contains(p));
    }
    lemma_dfs_rec_fills(m, start, visited@, n);
    if before.all_walls_standing() {
        lemma_all_standing_none_open(before);
        lemma_open_within_grows(before, Set::empty(), Set::<Coord>::empty().insert(start));
        assert forall|p: Coord| visited.in_grid(p) implies #[trigger] visited@.contains(p) by {
            assert(connected(m, start, p) && visited@.contains(p));
        }
        visited.lemma_full();
    }
}

/// A carving from `start` that visited `v`, each cell connected to `start` and with its
/// neighbours visited, visited every cell and connected it to `start`.
proof fn lemma_dfs_rec_fills(m: MazeView, start: Coord, v: Set<Coord>, n: int)
    requires
        start.0 < n,
        start.1 < n,
        v.contains(start),
        forall|p: Coord| #[trigger] v.contains(p) ==> connected(m, start, p) && closed_at(v, p, n, n),
    ensures
        forall|q: Coord| q.0 < n && q.1 < n ==> #[trigger] connected(m, start, q) && v.contains(q),
{
    assert forall|q: Coord| q.0 < n && q.1 < n implies #[trigger] connected(m, start, q) && v.contains(q) by {
        lemma_closed_fills(v, start, n, n, q);
    }
}


/// Whether `d` occurs in `excludes`.
fn contains_direction(excludes: &[Direction], d: Direction) -> (res: bool)
    ensures
        res == excludes@.contains(d),
{
    let mut i: usize = 0;
    while i < excludes.len()
        invariant
            i <= excludes@.len(),
            forall|k: int| 0 <= k < i ==> excludes@[k] != d,
        decreases excludes@.len() - i,
    {
        if excludes[i] == d {
            return true;
        }
        i = i + 1;
    }
    false
}

/// A random choice between north and east, or `None` when the chosen direction is excluded.
fn random_direction(excludes: &[Direction]) -> (res: Option<Direction>)
    ensures
        res matches Some(d) ==> (d == Direction::North || d == Direction::East)
            && !excludes@.contains(d),
        excludes@.contains(Direction::North) && excludes@.contains(Direction::East) ==> res is None,
        res is None ==> excludes@.contains(Direction::North) || excludes@.contains(Direction::East),
{
    let directions = vec![Direction::North, Direction::East];
    match random_choice(directions.as_slice()) {
        Some(x) => {
            if !contains_direction(excludes, *x) {
                Some(*x)
            } else {
                None
            }
        },
        None => None,
    }
}

/// The directions in which a cell at `(row_index, col_index)` of a `width` by `height` area
/// borders the edge: north in the first row, west in the first column, south in the last row,
/// east in the last column.
pub open spec fn edge_directions(row_index: usize, col_index: usize, width: usize, height: usize) -> Seq<
    Direction,
> {
    (if row_index == 0 {
        seq![Direction::North]
    } else {
        Seq::empty()
    }) + (if col_index == 0 {
        seq![Direction::West]
    } else {
        Seq::empty()
    }) + (if row_index == height - 1 {
        seq![Direction::South]
    } else {
        Seq::empty()
    }) + (if col_index == width - 1 {
        seq![Direction::East]
    } else {
        Seq::empty()
    })
}

fn indexes_to_exclude(row_index: usize, col_index: usize, width: usize, height: usize) -> (res: Vec<
    Direction,
>)
    requires
        width >= 1,
        height >= 1,
    ensures
        res@ == edge_directions(row_index, col_index, width, height),
{
    let mut result = Vec::with_capacity(2);
    if row_index == 0 {
        result.push(Direction::North);
    }
    if col_index == 0 {
        result.push(Direction::West);
    }
    if row_index == height - 1 {
        result.push(Direction::South);
    }
    if col_index == width - 1 {
        result.push(Direction::East);
    }
    assert(result@ =~= edge_directions(row_index, col_index, width, height));
    result
}

/// Opening the north or east wall of a position that does not border the edge on that side
/// keeps the outer edge standing.
proof fn lemma_binary_step_keeps_boundary(m: MazeView, r: usize, c: usize, d: Option<Direction>)
    requires
        m.shaped(),
        m.boundary_standing(),
        m.width() <= i32::MAX,
        m.height() <= i32::MAX,
        r < m.width(),
        c < m.height(),
        d matches Some(dir) ==> (dir == Direction::North || dir == Direction::East)
            && !edge_directions(r, c, m.width() as usize, m.height() as usize).contains(dir),
    ensures
        m.with_cell_wall(r, c, d, false).boundary_standing(),
{
    assert((r as i32) as int == r);
    assert((c as i32) as int == c);
    match d {
        Some(dir) => {
            if m.in_range(r as int, c as int) {
                if dir == Direction::North {
                    assert(r != 0) by {
                        if r == 0 {
                            assert(edge_directions(r, c, m.width() as usize, m.height() as usize)[0]
                                == Direction::North);
                        }
                    }
                } else {
                    assert(c != m.width() - 1) by {
                        let e = edge_directions(r, c, m.width() as usize, m.height() as usize);
                        if c == m.width() - 1 {
                            assert(e[e.len() - 1] == Direction::East);
                        }
                    }
                }
                assert(nbr_in((r, c), dir, m.height(), m.width()));
                lemma_inner_wall_keeps_boundary(m, r, c, dir);
            } else {
                assert(m.lookup((r as i32) as int, (c as i32) as int) is None);
            }
        },
        None => {},
    }
}

impl MazeView {
    /// The north or the east wall of cell `(r, c)` is down.
    pub open spec fn north_or_east_open(self, r: int, c: int) -> bool {
        !self.vwalls[c][r] || !self.hwalls[r][c + 1]
    }
}

impl MazeView {
    /// The horizontal wall `(r, k)` differs from `before`.
    pub open spec fn h_changed(self, before: MazeView, r: int, k: int) -> bool {
        self.hwalls[r][k] != before.hwalls[r][k]
    }

    /// The vertical wall `(r, c)` differs from `before`.
    pub open spec fn v_changed(self, before: MazeView, c: int, r: int) -> bool {
        self.vwalls[c][r] != before.vwalls[c][r]
    }

    /// The walls that differ from `before` are inner walls, each the north or the east wall of
    /// one of the cells `(r, c)` with `c < cols` and `(r, c)` before `(i, j)` in order of rows,
    /// and no cell has both its north and its east wall changed.
    pub open spec fn binary_changes(self, before: MazeView, i: int, j: int, cols: int) -> bool {
        &&& forall|r: int, k: int|
            0 <= r < self.height() && 0 <= k <= self.width() && #[trigger] self.h_changed(before, r, k)
                ==> 1 <= k < self.width() && k - 1 < cols && (r < i || (r == i && k - 1 < j))
        &&& forall|c: int, r: int|
            0 <= c < self.width() && 0 <= r <= self.height() && #[trigger] self.v_changed(before, c, r)
                ==> 1 <= r < self.height() && c < cols && (r < i || (r == i && c < j))
        &&& forall|r: int, c: int|
            0 <= r < self.height() && 0 <= c < self.width() ==> !(#[trigger] self.v_changed(before, c, r)
                && self.h_changed(before, r, c + 1))
    }
}

/// Handling cell `(i, j)`: taking down its north wall (not in the first row), its east wall
/// (not in the last column) or nothing keeps `binary_changes`, with `(i, j)` now handled.
proof fn lemma_binary_step_changes(
    before: MazeView,
    m: MazeView,
    i: usize,
    j: usize,
    cols: int,
    d: Option<Direction>,
)
    requires
        m.shaped(),
        m.height() == before.height(),
        m.width() == before.width(),
        before.shaped(),
        m.height() <= i32::MAX,
        m.width() <= i32::MAX,
        i < m.width(),
        j < cols,
        cols <= m.height(),
        m.binary_changes(before, i as int, j as int, cols),
        d matches Some(dir) ==> (dir == Direction::North && i != 0) || (dir == Direction::East && j + 1
            != m.width()),
    ensures
        m.with_cell_wall(i, j, d, false).binary_changes(before, i as int, j + 1, cols),
{
    assert((i as i32) as int == i);
    assert((j as i32) as int == j);
    assert((m.hwalls.len() as i32) as int == m.height());
    assert((m.vwalls.len() as i32) as int == m.width());
    let m2 = m.with_cell_wall(i, j, d, false);
    match d {
        Some(dir) => {
            if m.in_range(i as int, j as int) {
                lemma_lookup_placed(m, i as int, j as int);
                let (r0, c0) = (i as int, j as int);
                assert(m.hwalls[r0].len() == m.width() + 1);
                assert(m.vwalls[c0].len() == m.height() + 1);
                if dir == Direction::North {
                    assert(m2.hwalls == m.hwalls);
                    assert forall|r: int, k: int|
                        0 <= r < m2.height() && 0 <= k <= m2.width() && #[trigger] m2.h_changed(before, r, k)
                            implies 1 <= k < m2.width() && k - 1 < cols && (r < i || (r == i && k - 1 < j
                            + 1)) by {
                        assert(m.h_changed(before, r, k));
                    }
                    assert forall|c: int, r: int|
                        0 <= c < m2.width() && 0 <= r <= m2.height() && #[trigger] m2.v_changed(before, c, r)
                            implies 1 <= r < m2.height() && c < cols && (r < i || (r == i && c < j + 1)) by {
                        if c != c0 || r != r0 {
                            assert(m2.vwalls[c][r] == m.vwalls[c][r]);
                            assert(m.v_changed(before, c, r));
                        }
                    }
                    assert forall|r: int, c: int|
                        0 <= r < m2.height() && 0 <= c < m2.width() implies !(#[trigger] m2.v_changed(
                            before,
                            c,
                            r,
                        ) && m2.h_changed(before, r, c + 1)) by {
                        if c != c0 || r != r0 {
                            assert(m2.vwalls[c][r] == m.vwalls[c][r]);
                            assert(!(m.v_changed(before, c, r) && m.h_changed(before, r, c + 1)));
                        } else {
                            assert(m.hwalls[r].len() == m.width() + 1);
                            if m.h_changed(before, r, c + 1) {
                                assert(false);
                            }
                        }
                    }
                } else {
                    assert(m2.vwalls == m.vwalls);
                    assert forall|c: int, r: int|
                        0 <= c < m2.width() && 0 <= r <= m2.height() && #[trigger] m2.v_changed(before, c, r)
                            implies 1 <= r < m2.height() && c < cols && (r < i || (r == i && c < j + 1)) by {
                        assert(m.v_changed(before, c, r));
                    }
                    assert forall|r: int, k: int|
                        0 <= r < m2.height() && 0 <= k <= m2.width() && #[trigger] m2.h_changed(before, r, k)
                            implies 1 <= k < m2.width() && k - 1 < cols && (r < i || (r == i && k - 1 < j
                            + 1)) by {
                        if r != r0 || k != c0 + 1 {
                            assert(m2.hwalls[r][k] == m.hwalls[r][k]);
                            assert(m.h_changed(before, r, k));
                        }
                    }
                    assert forall|r: int, c: int|
                        0 <= r < m2.height() && 0 <= c < m2.width() implies !(#[trigger] m2.v_changed(
                            before,
                            c,
                            r,
                        ) && m2.h_changed(before, r, c + 1)) by {
                        assert(m.hwalls[r].len() == m.width() + 1);
                        if r != r0 || c != c0 {
                            assert(m2.hwalls[r][c + 1] == m.hwalls[r][c + 1]);
                            assert(!(m.v_changed(before, c, r) && m.h_changed(before, r, c + 1)));
                        } else {
                            assert(m.vwalls[c].len() == m.height() + 1);
                            if m.v_changed(before, c, r) {
                                assert(false);
                            }
                        }
                    }
                }
            } else {
                assert(m2 == m);
            }
        },
        None => {},
    }
}

/// North is an edge direction exactly in the first row, east exactly in the last column.
proof fn lemma_edge_directions(r: usize, c: usize, width: usize, height: usize)
    ensures
        edge_directions(r, c, width, height).contains(Direction::North) <==> r == 0,
        edge_directions(r, c, width, height).contains(Direction::East) <==> c == width - 1,
{
    let a: Seq<Direction> = if r == 0 { seq![Direction::North] } else { Seq::empty() };
    let b: Seq<Direction> = if c == 0 { seq![Direction::West] } else { Seq::empty() };
    let s: Seq<Direction> = if r == height - 1 { seq![Direction::South] } else { Seq::empty() };
    let e: Seq<Direction> = if c == width - 1 { seq![Direction::East] } else { Seq::empty() };
    let all = edge_directions(r, c, width, height);
    assert(all == a + b + s + e);
    if r == 0 {
        assert(all[0] == Direction::North);
    }
    if c == width - 1 {
        assert(all[all.len() - 1] == Direction::East);
    }
    if all.contains(Direction::North) {
        let i = choose|i: int| 0 <= i < all.len() && all[i] == Direction::North;
        if r != 0 {
            assert(a.len() == 0);
            if i < b.len() {
                assert(all[i] == b[i]);
            } else if i < b.len() + s.len() {
                assert(all[i] == s[i - b.len()]);
            } else {
                assert(all[i] == e[i - b.len() - s.len()]);
            }
        }
    }
    if all.contains(Direction::East) {
        let i = choose|i: int| 0 <= i < all.len() && all[i] == Direction::East;
        if c != width - 1 {
            assert(e.len() == 0);
            if i < a.len() {
                assert(all[i] == a[i]);
            } else if i < a.len() + b.len() {
                assert(all[i] == b[i - a.len()]);
            } else {
                assert(all[i] == s[i - a.len() - b.len()]);
            }
        }
    }
}

/// A wall down stays down when walls are only taken down.
proof fn lemma_carving_keeps_north_or_east(m: MazeView, m2: MazeView)
    requires
        m.shaped(),
        m2.carved_from(m),
    ensures
        forall|r: int, c: int|
            0 <= r < m.height() && 0 <= c < m.width() && #[trigger] m.north_or_east_open(r, c)
                ==> m2.north_or_east_open(r, c),
{
    assert forall|r: int, c: int|
        0 <= r < m.height() && 0 <= c < m.width() && #[trigger] m.north_or_east_open(r, c) implies m2.north_or_east_open(
            r,
            c,
        ) by {
        if !m.vwalls[c][r] {
            assert(!m2.vwalls[c][r]);
        } else {
            assert(!m2.hwalls[r][c + 1]);
        }
    }
}

/// Taking down the north or east wall of a cell of the maze leaves that wall down.
proof fn lemma_north_or_east_down(m: MazeView, r: usize, c: usize, d: Direction)
    requires
        m.shaped(),
        r < m.height(),
        c < m.width(),
        m.height() <= i32::MAX,
        m.width() <= i32::MAX,
        d == Direction::North || d == Direction::East,
    ensures
        m.with_cell_wall(r, c, Some(d), false).north_or_east_open(r as int, c as int),
{
    assert((r as i32) as int == r);
    assert((c as i32) as int == c);
    assert((m.hwalls.len() as i32) as int == m.height());
    assert((m.vwalls.len() as i32) as int == m.width());
    lemma_lookup_placed(m, r as int, c as int);
    assert(m.hwalls[r as int].len() == m.width() + 1);
    assert(m.vwalls[c as int].len() == m.height() + 1);
}

impl Maze {
    /// Carves a binary-tree maze: for every position `(r, c)` with `r < width` and
    /// `c < height` it takes down, at random, the north or the east wall of cell `(r, c)`,
    /// unless that side lies on the edge.
    pub fn generate_binary_maze(&mut self)
        requires
            old(self)@.shaped(),
        ensures
            final(self)@.carved_from(old(self)@),
            old(self)@.width() <= i32::MAX && old(self)@.height() <= i32::MAX
                && old(self)@.boundary_standing() ==> final(self)@.boundary_standing(),
            old(self)@.width() <= i32::MAX && old(self)@.height() <= i32::MAX ==> forall|r: int, c: int|
                1 <= r < old(self)@.height() && 0 <= c < old(self)@.width() - 1 && r < old(self)@.width()
                    && c < old(self)@.height() ==> #[trigger] final(self)@.north_or_east_open(r, c),
            old(self)@.width() <= i32::MAX && old(self)@.height() <= i32::MAX ==> final(self)@.binary_changes(
                old(self)@,
                old(self)@.width(),
                0,
                old(self)@.height(),
            ),
    {
        let ghost before = self@;
        proof {
            lemma_carved_refl(before);
        }
        let width = self.vertical_walls.len();
        let height = self.horizontal_walls.len();
        let ghost keeps = width <= i32::MAX && height <= i32::MAX && before.boundary_standing();
        let ghost small = width <= i32::MAX && height <= i32::MAX;
        for cell_row_index in 0..width
            invariant
                self@.carved_from(before),
                before.shaped(),
                width == before.width(),
                height == before.height(),
                keeps == (width <= i32::MAX && height <= i32::MAX && before.boundary_standing()),
                keeps ==> self@.boundary_standing(),
                small == (width <= i32::MAX && height <= i32::MAX),
                small ==> forall|r: int, c: int|
                    1 <= r < height && 0 <= c < width - 1 && r < cell_row_index && c < height
                        ==> #[trigger] self@.north_or_east_open(r, c),
                small ==> self@.binary_changes(before, cell_row_index as int, 0, height as int),
        {
            for cell_col_index in 0..height
                invariant
                    self@.carved_from(before),
                    before.shaped(),
                    width == before.width(),
                    height == before.height(),
                    cell_row_index < width,
                    keeps == (width <= i32::MAX && height <= i32::MAX && before.boundary_standing()),
                    keeps ==> self@.boundary_standing(),
                    small == (width <= i32::MAX && height <= i32::MAX),
                    small ==> forall|r: int, c: int|
                        1 <= r < height && 0 <= c < width - 1 && (r < cell_row_index || (r
                            == cell_row_index && c < cell_col_index)) && c < height
                            ==> #[trigger] self@.north_or_east_open(r, c),
                    small ==> self@.binary_changes(before, cell_row_index as int, cell_col_index as int, height as int),
            {
                let excludes = indexes_to_exclude(cell_row_index, cell_col_index, width, height);
                let direction = random_direction(excludes.as_slice());
                let ghost mid = self@;
                proof {
                    crate::maze::lemma_shaped_settable(self@, cell_row_index, cell_col_index, direction);
                }
                self.set_wall_by_cell(cell_row_index, cell_col_index, direction, false);
                proof {
                    lemma_open_cell_wall_carves(mid, cell_row_index, cell_col_index, direction);
                    lemma_carved_trans(before, mid, self@);
                    if keeps {
                        lemma_binary_step_keeps_boundary(mid, cell_row_index, cell_col_index, direction);
                    }
                    if small {
                        lemma_edge_directions(cell_row_index, cell_col_index, width, height);
                        lemma_binary_step_changes(before, mid, cell_row_index, cell_col_index, height as int, direction);
                        lemma_carving_keeps_north_or_east(mid, self@);
                        let (i, j) = (cell_row_index as int, cell_col_index as int);
                        if 1 <= i < height && 0 <= j < width - 1 {
                            lemma_edge_directions(cell_row_index, cell_col_index, width, height);
                            assert(excludes@ == edge_directions(cell_row_index, cell_col_index, width, height));
                            assert(direction is Some);
                            let d = direction.unwrap();
                            lemma_north_or_east_down(mid, cell_row_index, cell_col_index, d);
                            assert(self@.north_or_east_open(i, j));
                        }
                        assert forall|r: int, c: int|
                            1 <= r < height && 0 <= c < width - 1 && (r < cell_row_index || (r
                                == cell_row_index && c < cell_col_index + 1)) && c < height
                                implies #[trigger] self@.north_or_east_open(r, c) by {
                            if r != i || c != j {
                                assert(mid.north_or_east_open(r, c));
                            }
                        }
                    }
                }
            }
        }
    }

    /// Carves a maze by a random walk: from a random position it keeps stepping to a random
    /// neighbour that has not been visited, taking down the wall between them; when every
    /// neighbour has been visited it jumps to the first unvisited position, until every position
    /// of the `width` by `height` area has been visited.
    pub fn generate_random_walk_maze(&mut self)
        requires
            old(self)@.shaped(),
            old(self)@.width() >= 1,
            old(self)@.height() >= 1,
            old(self)@.width() * old(self)@.height() <= usize::MAX,
            old(self)@.width() <= i32::MAX,
            old(self)@.height() <= i32::MAX,
        ensures
            final(self)@.carved_from(old(self)@),
            opened_from_area(
                old(self)@,
                final(self)@,
                old(self)@.width() as usize,
                old(self)@.height() as usize,
            ),
            old(self)@.width() == old(self)@.height() && old(self)@.boundary_standing()
                ==> final(self)@.boundary_standing(),
            old(self)@.width() == old(self)@.height() ==> forall|p: Coord, q: Coord|
                p.0 < old(self)@.width() && q.0 < old(self)@.width() && p.1 < old(self)@.width() && q.1
                    < old(self)@.width() && adjacent(p, q) ==> !(#[trigger] final(self)@.closed_cell(p)
                    && #[trigger] final(self)@.closed_cell(q)),
            old(self)@.width() == old(self)@.height() && old(self)@.all_walls_standing() ==> forall|p: Coord|
                p.0 < old(self)@.width() && p.1 < old(self)@.width() ==> #[trigger] final(self)@.down_count(p)
                    <= 2,
            old(self)@.width() == old(self)@.height() ==> exists|order: Seq<Coord>|
                #[trigger] walk_order(old(self)@, final(self)@, order, old(self)@.width()),
            old(self)@.width() == old(self)@.height() ==> final(self)@.same_border(old(self)@),
    {
        let ghost before = self@;
        proof {
            lemma_carved_refl(before);
        }
        let width = self.vertical_walls.len();
        let height = self.horizontal_walls.len();
        let ghost keeps = width == height && before.boundary_standing();
        let ghost sq = width == height;
        let ghost n = width as int;
        let ghost corr = width == height && before.all_walls_standing();
        let mut start = (random_in_range(0, width), random_in_range(0, height));
        let area = width * height;
        let mut acc = CoordSet::new(width, height);
        proof {
            lemma_opened_from_area_start(before, width, height);
        }
        let ghost mut order: Seq<Coord> = Seq::empty();
        proof {
            lemma_walk_begin(before, start, n);
            assert(area >= 1) by (nonlinear_arith)
                requires
                    area == width * height,
                    width >= 1,
                    height >= 1,
            ;
            if corr {
                assert forall|q: Coord| q.0 < n && q.1 < n implies #[trigger] before.down_count(q) == 0 by {
                    assert(before.hwalls[q.0 as int].len() == n + 1);
                    assert(before.vwalls[q.1 as int].len() == n + 1);
                }
            }
        }
        while acc.len() < area
            invariant
                self@.carved_from(before),
                before.shaped(),
                width == before.width(),
                height == before.height(),
                width <= i32::MAX,
                height <= i32::MAX,
                area == width * height,
                acc.wf(),
                acc.rows() == width,
                acc.cols() == height,
                start.0 < width,
                start.1 < height,
                acc.size() < area ==> !acc@.contains(start),
                acc.off_grid() == 0,
                acc.size() <= area,
                keeps == (width == height && before.boundary_standing()),
                keeps ==> self@.boundary_standing(),
                sq == (width == height),
                opened_from_area(before, self@, width, height),
                n == width,
                sq ==> walk_settled(self@, acc@, n),
                corr == (width == height && before.all_walls_standing()),
                corr ==> walk_corridors(self@, acc@, start, n),
                sq ==> walk_progress(before, self@, acc@, acc.size(), order, start, n),
                acc.size() >= area ==> order.len() > 0 && start == order.last(),
            decreases area - acc.size(),
        {
            proof {
                acc.lemma_bounds();
            }
            proof {
                acc.lemma_inside();
            }
            let ghost pre_acc = acc@;
            let ghost pre_start = start;
            let ghost pre_size = acc.size();
            acc.insert(start);
            proof {
                acc.lemma_bounds();
            }
            let next = Self::get_next(start, &acc, width, height);
            proof {
                lemma_next_steps(start, acc@, width, height);
            }
            match random_choice(next.as_slice()) {
                None => {
                    proof {
                        if sq {
                            lemma_no_next_closed(start, acc@, n);
                            lemma_settle_stuck(self@, pre_acc, start, n);
                        }
                    }
                    let ghost pre_order = order;
                    proof {
                        order = order.push(start);
                    }
                    if acc.len() < area {
                        proof {
                            acc.lemma_gap();
                        }
                        start = first_unvisited(&acc, width, height);
                    }
                    proof {
                        if sq {
                            if start == pre_start {
                                assert forall|p: Coord| p.0 < n && p.1 < n implies #[trigger] acc@.contains(p) by {
                                    if !acc@.contains(p) {
                                        acc.lemma_missing(p);
                                    }
                                }
                            }
                            assert(crate::walk::first_outside(acc@, start, n));
                            lemma_walk_stuck(before, self@, pre_acc, pre_size, pre_order, pre_start, start, n);
                        }
                    }
                },
                Some(step) => {
                    let ((x, y), direction) = *step;
                    proof {
                        let i = choose|i: int| 0 <= i < next@.len() && next@[i] == ((x, y), direction);
                        assert(next@[i] == next_steps(start, acc@, width, height)[i]);
                    }
                    let new_direction = match direction {
                        Direction::North => Direction::South,
                        Direction::South => Direction::North,
                        Direction::East => Direction::West,
                        Direction::West => Direction::East,
                    };
                    let ghost mid = self@;
                    proof {
                        crate::maze::lemma_shaped_settable(self@, x, y, Some(new_direction));
                    }
                    self.set_wall_by_cell(x, y, Some(new_direction), false);
                    proof {
                        lemma_open_cell_wall_carves(mid, x, y, Some(new_direction));
                        assert((start.0 as i32) as int == start.0);
                        assert((start.1 as i32) as int == start.1);
                        assert((x as i32) as int == x);
                        assert((y as i32) as int == y);
                        assert(new_direction == opposite(direction));
                        assert(area_step_to((x, y), width, height, new_direction) == Some(start));
                        lemma_opened_from_area_step(before, mid, (x, y), new_direction, width, height);
                        lemma_carved_trans(before, mid, self@);
                        if keeps {
                            assert((start.0 as i32) as int == start.0);
                            assert((start.1 as i32) as int == start.1);
                            assert((x as i32) as int == x);
                            assert((y as i32) as int == y);
                            assert((mid.hwalls.len() as i32) as int == height);
                            assert((mid.vwalls.len() as i32) as int == width);
                            assert(new_direction == opposite(direction));
                            assert(nbr_in((x, y), new_direction, height as int, width as int));
                            lemma_inner_wall_keeps_boundary(mid, x, y, new_direction);
                        }
                        if sq {
                            assert((start.0 as i32) as int == start.0);
                            assert((start.1 as i32) as int == start.1);
                            assert(new_direction == opposite(direction));
                            assert(nbr_in((x, y), new_direction, n, n));
                            assert(nbr((x, y), new_direction) == start);
                            lemma_shared_wall_down(mid, (x, y), new_direction);
                            lemma_settle_step(mid, self@, pre_acc, start, n);
                            if corr {
                                assert((x, y) != start);
                                assert(!acc@.contains((x, y)));
                                assert(mid.down_count((x, y)) == 0);
                                lemma_shared_wall_counts(mid, (x, y), new_direction);
                                assert(walk_corridors(self@, acc@, (x, y), n));
                            }
                            lemma_walk_advance(before, mid, pre_acc, pre_size, order, (x, y), new_direction, n);
                        }
                        order = order.push(pre_start);
                        if !acc@.contains((x, y)) {
                            acc.lemma_missing((x, y));
                        }
                    }
                    start = (x, y);
                },
            }
        }
        proof {
            if sq {
                assert forall|q: Coord| q.0 < n && q.1 < n implies #[trigger] acc@.contains(q) by {
                    if !acc@.contains(q) {
                        acc.lemma_missing(q);
                    }
                }
                lemma_no_closed_pair(self@, acc@, n);
                lemma_walk_end(before, self@, acc@, order, start, n);
                crate::walk::lemma_walk_order_border(before, self@, order, n);
            }
        }
    }
}

/// The first position, in order of rows then columns, that is not in `acc`.
fn first_unvisited(acc: &CoordSet, width: usize, height: usize) -> (res: Coord)
    requires
        acc.wf(),
        acc.rows() == width,
        acc.cols() == height,
        exists|p: Coord| acc.in_grid(p) && !acc@.contains(p),
    ensures
        res.0 < width,
        res.1 < height,
        !acc@.contains(res),
        forall|p: Coord| p.0 < width && p.1 < height && (p.0 < res.0 || (p.0 == res.0 && p.1 < res.1)) ==> acc@.contains(p),
{
    let mut x: usize = 0;
    while x < width
        invariant
            acc.wf(),
            acc.rows() == width,
            acc.cols() == height,
            exists|p: Coord| acc.in_grid(p) && !acc@.contains(p),
            x <= width,
            forall|p: Coord| p.0 < x && p.1 < height ==> acc@.contains(p),
        decreases width - x,
    {
        let mut y: usize = 0;
        while y < height
            invariant
                acc.wf(),
                acc.rows() == width,
                acc.cols() == height,
                x < width,
                y <= height,
                forall|p: Coord| p.0 < x && p.1 < height ==> acc@.contains(p),
                forall|q: usize| q < y ==> acc@.contains((x, q)),
            decreases height - y,
        {
            if !acc.contains(&(x, y)) {
                return (x, y);
            }
            y = y + 1;
        }
        assert forall|p: Coord| p.0 < x + 1 && p.1 < height implies acc@.contains(p) by {
            if p.0 == x {
                assert(acc@.contains((x, p.1)));
            }
        }
        x = x + 1;
    }
    proof {
        let p = choose|p: Coord| acc.in_grid(p) && !acc@.contains(p);
        assert(acc@.contains(p));
    }
    (0, 0)
}

} // verus!
