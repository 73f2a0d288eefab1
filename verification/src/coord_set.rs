use vstd::prelude::*;

use crate::maze::Coord;

verus! {

/// Number of `true` entries of `s`.
pub open spec fn count_true(s: Seq<bool>) -> nat
    decreases s.len(),
{
    if s.len() == 0 {
        0
    } else {
        count_true(s.drop_last()) + if s.last() {
            1nat
        } else {
            0nat
        }
    }
}

pub proof fn lemma_count_true_bound(s: Seq<bool>)
    ensures
        count_true(s) <= s.len(),
    decreases s.len(),
{
    if s.len() > 0 {
        lemma_count_true_bound(s.drop_last());
    }
}

/// Marking an unmarked entry adds one to the count.
pub proof fn lemma_count_true_mark(s: Seq<bool>, i: int)
    requires
        0 <= i < s.len(),
        !s[i],
    ensures
        count_true(s.update(i, true)) == count_true(s) + 1,
    decreases s.len(),
{
    let t = s.update(i, true);
    if i == s.len() - 1 {
        assert(t.drop_last() =~= s.drop_last());
    } else {
        assert(t.drop_last() =~= s.drop_last().update(i, true));
        lemma_count_true_mark(s.drop_last(), i);
    }
}

/// A sequence with an unmarked entry has fewer marks than entries.
pub proof fn lemma_count_true_missing(s: Seq<bool>, i: int)
    requires
        0 <= i < s.len(),
        !s[i],
    ensures
        count_true(s) < s.len(),
{
    lemma_count_true_mark(s, i);
    lemma_count_true_bound(s.update(i, true));
}

/// A sequence with fewer marks than entries has an unmarked entry.
pub proof fn lemma_count_true_gap(s: Seq<bool>)
    requires
        count_true(s) < s.len(),
    ensures
        exists|i: int| 0 <= i < s.len() && !s[i],
    decreases s.len(),
{
    if !s.last() {
        assert(!s[s.len() - 1]);
    } else {
        lemma_count_true_gap(s.drop_last());
        let i = choose|i: int| 0 <= i < s.drop_last().len() && !s.drop_last()[i];
        assert(!s[i]);
    }
}

pub proof fn lemma_count_true_none(n: nat)
    ensures
        count_true(Seq::new(n, |i: int| false)) == 0,
    decreases n,
{
    if n > 0 {
        assert(Seq::new(n, |i: int| false).drop_last() =~= Seq::new((n - 1) as nat, |i: int| false));
        lemma_count_true_none((n - 1) as nat);
    }
}

/// A marked entry makes the count positive.
pub proof fn lemma_count_true_mark_present(s: Seq<bool>, i: int)
    requires
        0 <= i < s.len(),
        s[i],
    ensures
        count_true(s) > 0,
    decreases s.len(),
{
    if i < s.len() - 1 {
        assert(s.drop_last()[i]);
        lemma_count_true_mark_present(s.drop_last(), i);
    }
}

/// What a sequence holds after a push.
pub proof fn lemma_push_contains(s: Seq<Coord>, x: Coord)
    ensures
        forall|p: Coord| #[trigger] s.push(x).contains(p) == (s.contains(p) || p == x),
{
    assert forall|p: Coord| #[trigger] s.push(x).contains(p) == (s.contains(p) || p == x) by {
        if s.contains(p) {
            let k = choose|k: int| 0 <= k < s.len() && s[k] == p;
            assert(s.push(x)[k] == p);
        }
        if p == x {
            assert(s.push(x)[s.len() as int] == x);
        }
        if s.push(x).contains(p) {
            let k = choose|k: int| 0 <= k < s.len() + 1 && s.push(x)[k] == p;
            if k < s.len() {
                assert(s[k] == p);
            }
        }
    }
}

/// A sequence with a mark has a marked entry.
pub proof fn lemma_count_true_some(s: Seq<bool>)
    requires
        count_true(s) > 0,
    ensures
        exists|i: int| 0 <= i < s.len() && s[i],
    decreases s.len(),
{
    if s.last() {
        assert(s[s.len() - 1]);
    } else {
        lemma_count_true_some(s.drop_last());
        let i = choose|i: int| 0 <= i < s.drop_last().len() && s.drop_last()[i];
        assert(s[i]);
    }
}

/// The position of cell `(r, c)` in a row-major grid with `cols` columns.
pub open spec fn flat_index(r: int, c: int, cols: int) -> int {
    r * cols + c
}

pub proof fn lemma_flat_index_bound(r: int, c: int, rows: int, cols: int)
    requires
        0 <= r < rows,
        0 <= c < cols,
    ensures
        0 <= r * cols <= flat_index(r, c, cols) < rows * cols,
{
    assert(0 <= r * cols <= r * cols + c < rows * cols) by (nonlinear_arith)
        requires
            0 <= r < rows,
            0 <= c < cols,
    ;
}

pub proof fn lemma_flat_index_injective(r1: int, c1: int, r2: int, c2: int, cols: int)
    requires
        0 <= r1,
        0 <= r2,
        0 <= c1 < cols,
        0 <= c2 < cols,
        flat_index(r1, c1, cols) == flat_index(r2, c2, cols),
    ensures
        r1 == r2,
        c1 == c2,
{
    assert(r1 == r2 && c1 == c2) by (nonlinear_arith)
        requires
            0 <= r1,
            0 <= r2,
            0 <= c1 < cols,
            0 <= c2 < cols,
            r1 * cols + c1 == r2 * cols + c2,
    ;
}

/// A set of coordinates, laid out for the grid of coordinates `(r, c)` with `r < rows` and
/// `c < cols`.
///
/// It keeps one mark per coordinate of its grid, and a list of the members that lie outside
/// the grid.
pub struct CoordSet {
    rows: usize,
    cols: usize,
    marks: Vec<bool>,
    count: usize,
    outside: Vec<Coord>,
}

impl View for CoordSet {
    type V = Set<Coord>;

    closed spec fn view(&self) -> Set<Coord> {
        Set::new(
            |p: Coord|
                if p.0 < self.rows && p.1 < self.cols {
                    self.marks@[flat_index(p.0 as int, p.1 as int, self.cols as int)]
                } else {
                    self.outside@.contains(p)
                },
        )
    }
}

impl CoordSet {
    pub closed spec fn wf(&self) -> bool {
        &&& self.marks@.len() == self.rows * self.cols
        &&& self.rows * self.cols <= usize::MAX
        &&& self.count == count_true(self.marks@)
        &&& self.outside@.no_duplicates()
        &&& forall|i: int|
            0 <= i < self.outside@.len() ==> !(self.outside@[i].0 < self.rows && self.outside@[i].1
                < self.cols)
    }

    /// Number of members outside the grid.
    pub closed spec fn off_grid(&self) -> nat {
        self.outside@.len()
    }

    /// Number of rows of the grid.
    pub closed spec fn rows(&self) -> nat {
        self.rows as nat
    }

    /// Number of columns of the grid.
    pub closed spec fn cols(&self) -> nat {
        self.cols as nat
    }

    /// Number of members inside the grid.
    pub closed spec fn size(&self) -> nat {
        self.count as nat
    }

    /// The coordinates inside the grid.
    pub open spec fn in_grid(&self, p: Coord) -> bool {
        p.0 < self.rows() && p.1 < self.cols()
    }

    /// The number of members inside the grid never exceeds the grid.
    pub proof fn lemma_bounds(&self)
        requires
            self.wf(),
        ensures
            self.size() <= self.rows() * self.cols(),
            self.rows() * self.cols() <= usize::MAX,
    {
        lemma_count_true_bound(self.marks@);
    }

    /// With no member outside the grid, every member lies in the grid.
    pub proof fn lemma_inside(&self)
        requires
            self.wf(),
            self.off_grid() == 0,
        ensures
            forall|p: Coord| #[trigger] self@.contains(p) ==> self.in_grid(p),
    {
    }

    /// A set that misses a cell of its grid has fewer members than the grid has cells.
    pub proof fn lemma_missing(&self, p: Coord)
        requires
            self.wf(),
            self.in_grid(p),
            !self@.contains(p),
        ensures
            self.size() < self.rows() * self.cols(),
    {
        lemma_flat_index_bound(p.0 as int, p.1 as int, self.rows as int, self.cols as int);
        lemma_count_true_missing(self.marks@, flat_index(p.0 as int, p.1 as int, self.cols as int));
    }

    /// A set with fewer members than its grid has cells misses a cell of the grid.
    pub proof fn lemma_gap(&self)
        requires
            self.wf(),
            self.size() < self.rows() * self.cols(),
        ensures
            exists|p: Coord| self.in_grid(p) && !self@.contains(p),
    {
        lemma_count_true_gap(self.marks@);
        let i = choose|i: int| 0 <= i < self.marks@.len() && !self.marks@[i];
        let p = self.lemma_unflatten(i);
        assert(self.in_grid(p) && !self@.contains(p));
    }

    /// The cell of the grid at position `i` of the marks.
    proof fn lemma_unflatten(&self, i: int) -> (p: Coord)
        requires
            self.wf(),
            0 <= i < self.marks@.len(),
        ensures
            self.in_grid(p),
            flat_index(p.0 as int, p.1 as int, self.cols as int) == i,
            self@.contains(p) == self.marks@[i],
    {
        let cols = self.cols as int;
        assert(cols > 0) by (nonlinear_arith)
            requires
                0 <= i < self.rows * cols,
        ;
        let r = i / cols;
        let c = i % cols;
        assert(0 <= r && r * cols + c == i && 0 <= c < cols) by (nonlinear_arith)
            requires
                0 <= i,
                cols > 0,
                r == i / cols,
                c == i % cols,
        ;
        assert(r < self.rows) by (nonlinear_arith)
            requires
                cols > 0,
                0 <= r,
                0 <= c,
                r * cols + c == i,
                i < self.rows * cols,
        ;
        let p: Coord = (r as usize, c as usize);
        assert(flat_index(p.0 as int, p.1 as int, cols) == i);
        p
    }

    /// A set with a member has a positive size, and the other way round.
    pub proof fn lemma_empty_size(&self)
        requires
            self.wf(),
        ensures
            self@ == Set::<Coord>::empty() <==> self.size() == 0 && self.off_grid() == 0,
    {
        if self.off_grid() > 0 {
            let p = self.outside@[0];
            assert(self@.contains(p));
        } else if self.size() > 0 {
            lemma_count_true_some(self.marks@);
            let i = choose|i: int| 0 <= i < self.marks@.len() && self.marks@[i];
            let p = self.lemma_unflatten(i);
            assert(self@.contains(p));
        } else if self@ != Set::<Coord>::empty() {
            assert(exists|p: Coord| self@.contains(p)) by {
                if !exists|p: Coord| self@.contains(p) {
                    assert(self@ =~= Set::<Coord>::empty());
                }
            }
            let p = choose|p: Coord| self@.contains(p);
            assert(self.in_grid(p));
            lemma_flat_index_bound(p.0 as int, p.1 as int, self.rows as int, self.cols as int);
            let i = flat_index(p.0 as int, p.1 as int, self.cols as int);
            assert(self.marks@[i]);
            lemma_count_true_mark_present(self.marks@, i);
        }
    }

    /// A set that holds every cell of its grid has as many members as the grid has cells.
    pub proof fn lemma_full(&self)
        requires
            self.wf(),
            forall|p: Coord| self.in_grid(p) ==> #[trigger] self@.contains(p),
        ensures
            self.size() == self.rows() * self.cols(),
    {
        self.lemma_bounds();
        if self.size() < self.rows() * self.cols() {
            self.lemma_gap();
            let p = choose|p: Coord| self.in_grid(p) && !self@.contains(p);
            assert(self@.contains(p));
        }
    }

    /// The empty set over a grid of `rows` by `cols` coordinates.
    pub fn new(rows: usize, cols: usize) -> (s: Self)
        requires
            rows * cols <= usize::MAX,
        ensures
            s.wf(),
            s@ == Set::<Coord>::empty(),
            s.rows() == rows,
            s.cols() == cols,
            s.size() == 0,
            s.off_grid() == 0,
    {
        let n = rows * cols;
        let mut marks: Vec<bool> = Vec::with_capacity(n);
        let mut i: usize = 0;
        while i < n
            invariant
                i <= n,
                n == rows * cols,
                marks@ == Seq::new(i as nat, |j: int| false),
            decreases n - i,
        {
            marks.push(false);
            i = i + 1;
            assert(marks@ =~= Seq::new(i as nat, |j: int| false));
        }
        proof {
            lemma_count_true_none(n as nat);
        }
        let s = CoordSet { rows, cols, marks, count: 0, outside: Vec::new() };
        assert forall|p: Coord| !#[trigger] s@.contains(p) by {
            if p.0 < rows && p.1 < cols {
                lemma_flat_index_bound(p.0 as int, p.1 as int, rows as int, cols as int);
            }
        }
        assert(s@ =~= Set::<Coord>::empty());
        s
    }

    /// Whether `coord` is in the set.
    pub fn contains(&self, coord: &Coord) -> (res: bool)
        requires
            self.wf(),
        ensures
            res == self@.contains(*coord),
    {
        if coord.0 < self.rows && coord.1 < self.cols {
            proof {
                lemma_flat_index_bound(coord.0 as int, coord.1 as int, self.rows as int, self.cols as int);
            }
            self.marks[coord.0 * self.cols + coord.1]
        } else {
            let mut i: usize = 0;
            while i < self.outside.len()
                invariant
                    i <= self.outside@.len(),
                    !(coord.0 < self.rows && coord.1 < self.cols),
                    forall|k: int| 0 <= k < i ==> self.outside@[k] != *coord,
                decreases self.outside@.len() - i,
            {
                let q = self.outside[i];
                if q.0 == coord.0 && q.1 == coord.1 {
                    assert(self.outside@[i as int] == *coord);
                    return true;
                }
                i = i + 1;
            }
            false
        }
    }

    /// Number of coordinates in the set.
    pub fn len(&self) -> (n: usize)
        requires
            self.wf(),
            self.size() + self.off_grid() <= usize::MAX,
        ensures
            n == self.size() + self.off_grid(),
    {
        self.count + self.outside.len()
    }

    /// Adds `coord` when it lies in the grid.
    pub fn insert(&mut self, coord: Coord)
        requires
            old(self).wf(),
        ensures
            final(self).wf(),
            final(self).rows() == old(self).rows(),
            final(self).cols() == old(self).cols(),
            final(self)@ == old(self)@.insert(coord),
            final(self).size() == if old(self).in_grid(coord) && !old(self)@.contains(coord) {
                old(self).size() + 1
            } else {
                old(self).size()
            },
            final(self).off_grid() == if !old(self).in_grid(coord) && !old(self)@.contains(coord) {
                old(self).off_grid() + 1
            } else {
                old(self).off_grid()
            },
    {
        if coord.0 < self.rows && coord.1 < self.cols {
            proof {
                lemma_flat_index_bound(coord.0 as int, coord.1 as int, self.rows as int, self.cols as int);
            }
            let i = coord.0 * self.cols + coord.1;
            if !self.marks[i] {
                proof {
                    lemma_count_true_mark(self.marks@, i as int);
                    lemma_count_true_bound(self.marks@.update(i as int, true));
                }
                self.marks.set(i, true);
                self.count = self.count + 1;
            }
            assert forall|p: Coord| #[trigger] self@.contains(p) == old(self)@.insert(coord).contains(p) by {
                if p.0 < self.rows && p.1 < self.cols {
                    lemma_flat_index_bound(p.0 as int, p.1 as int, self.rows as int, self.cols as int);
                    if flat_index(p.0 as int, p.1 as int, self.cols as int) == i {
                        lemma_flat_index_injective(p.0 as int, p.1 as int, coord.0 as int, coord.1 as int, self.cols as int);
                    }
                }
            }
            assert(self@ =~= old(self)@.insert(coord));
        } else if !self.contains(&coord) {
            self.outside.push(coord);
            proof {
                lemma_push_contains(old(self).outside@, coord);
            }
            assert forall|p: Coord| #[trigger] self@.contains(p) == old(self)@.insert(coord).contains(p) by {
                if p.0 < self.rows && p.1 < self.cols {
                    assert(self.marks@ == old(self).marks@);
                }
            }
            assert(self@ =~= old(self)@.insert(coord));
            assert forall|i: int|
                0 <= i < self.outside@.len() implies !(self.outside@[i].0 < self.rows && self.outside@[i].1
                    < self.cols) by {
                if i < old(self).outside@.len() {
                    assert(self.outside@[i] == old(self).outside@[i]);
                }
            }
            assert(self.outside@.no_duplicates()) by {
                assert forall|a: int, b: int| 0 <= a < b < self.outside@.len() implies self.outside@[a] != self.outside@[b] by {
                    if b == self.outside@.len() - 1 {
                        assert(old(self).outside@.contains(old(self).outside@[a]));
                    }
                }
            }
        } else {
            assert(self@ =~= old(self)@.insert(coord));
        }
    }
}

} // verus!
