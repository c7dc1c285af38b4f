use vstd::prelude::*;
use crate::tree::{edge_count, lemma_closed_covers, lemma_distinct_below, lemma_edge_count_empty, lemma_edge_count_same, lemma_edge_count_update, lemma_push_contains, lemma_tree_grow, lemma_walls_grow, is_entry, linked, tree_of, walls_match};

verus! {

/// Largest number of cells a grid may hold: cell indices are handled as `i32`.
pub const MAX_CELLS: usize = 2147483647;

/// One grid position: its right and bottom walls, and the cells that the
/// spanning tree enters from it.
#[derive(Clone, Debug, PartialEq)]
pub struct Cell {
    pub has_border_right: bool,
    pub has_border_bottom: bool,
    pub neighbours: Vec<usize>,
}

/// A square grid of `width * width` cells in row-major order, with the cells
/// incorporated so far by generation, in the order they were reached.
#[derive(Clone, Debug)]
pub struct Maze {
    pub width: usize,
    pub visited: Vec<usize>,
    pub maze: Vec<Cell>,
}

/// `to` is one of the four grid neighbours of `from` on a grid of the given width.
/// A difference of one is checked first, then a difference of one row.
pub open spec fn is_step(width: int, from: int, to: int) -> bool {
    &&& 0 <= to < width * width
    &&& if to - from == 1 {
        from % width + 1 < width
    } else if to - from == -1 {
        from % width > 0
    } else {
        to - from == width || to - from == -width
    }
}

/// The walls after moving from `from` to `to`: the wall between them is cleared
/// on the cell that holds it (the left one of a row pair, the upper one of a
/// column pair).
pub open spec fn cleared(cells: Seq<Cell>, width: int, from: int, to: int) -> Seq<Cell> {
    let d = from - to;
    let c1 = if d == -width {
        cells.update(from, Cell { has_border_bottom: false, ..cells[from] })
    } else {
        cells
    };
    let c2 = if d == width {
        c1.update(to, Cell { has_border_bottom: false, ..c1[to] })
    } else {
        c1
    };
    let c3 = if d == -1 {
        c2.update(from, Cell { has_border_right: false, ..c2[from] })
    } else {
        c2
    };
    if d == 1 {
        c3.update(to, Cell { has_border_right: false, ..c3[to] })
    } else {
        c3
    }
}

/// Two cell sequences hold the same walls and the same neighbour lists.
pub open spec fn same_cells(a: Seq<Cell>, b: Seq<Cell>) -> bool {
    &&& a.len() == b.len()
    &&& forall|i: int|
        0 <= i < a.len() ==> {
            &&& (#[trigger] a[i]).has_border_right == b[i].has_border_right
            &&& a[i].has_border_bottom == b[i].has_border_bottom
            &&& a[i].neighbours@ == b[i].neighbours@
        }
}

/// The generator found no unvisited grid neighbour of the active cell: it
/// backtracks.
#[derive(Debug, PartialEq, Eq, Structural)]
pub enum NextCellError {
    NoNeighbourAvailable,
}

/// Relies on rand::thread_rng and rand::Rng::gen_range: a number drawn from
/// `0..bound`. gen_range panics on an empty range, which `requires` rules out.
#[verifier::external_body]
fn random_below(bound: usize) -> (r: usize)
    requires
        bound > 0,
    ensures
        r < bound,
{
    rand::Rng::gen_range(&mut rand::thread_rng(), 0..bound)
}

/// The candidate that a draw selects: the draw is an index into the list.
pub fn pick_candidate(candidates: &Vec<usize>, draw: usize) -> (r: usize)
    requires
        draw < candidates@.len(),
    ensures
        r == candidates@[draw as int],
{
    candidates[draw]
}

impl Cell {
    /// A cell with both walls standing and no tree edges.
    pub open spec fn is_closed(self) -> bool {
        self.has_border_right && self.has_border_bottom && self.neighbours@.len() == 0
    }
}

impl Maze {
    pub open spec fn size(self) -> int {
        self.width * self.width
    }

    /// The grid holds `width * width` cells and fits the index arithmetic.
    pub open spec fn wf(self) -> bool {
        &&& self.width >= 1
        &&& self.width * self.width <= MAX_CELLS
        &&& self.maze@.len() == self.size()
    }

    /// A grid as built: every cell closed, nothing visited.
    pub open spec fn is_fresh(self) -> bool {
        &&& self.wf()
        &&& self.visited@.len() == 0
        &&& forall|i: int| 0 <= i < self.size() ==> (#[trigger] self.maze@[i]).is_closed()
    }

    /// Builds a grid of `width * width` closed cells.
    pub fn new(width: usize) -> (r: Maze)
        requires
            width >= 1,
            width * width <= MAX_CELLS,
        ensures
            r.width == width,
            r.is_fresh(),
    {
        let n: usize = width * width;
        let mut cells: Vec<Cell> = Vec::new();
        let mut i: usize = 0;
        while i < n
            invariant
                i <= n,
                cells@.len() == i,
                forall|k: int| 0 <= k < i ==> (#[trigger] cells@[k]).is_closed(),
            decreases n - i,
        {
            cells.push(Cell { has_border_right: true, has_border_bottom: true, neighbours: Vec::new() });
            i = i + 1;
        }
        Maze { width, visited: Vec::new(), maze: cells }
    }

    /// A copy of the cells: walls and neighbour lists.
    pub fn get_cells(&mut self) -> (r: Vec<Cell>)
        ensures
            *final(self) == *old(self),
            same_cells(r@, old(self).maze@),
    {
        let mut out: Vec<Cell> = Vec::new();
        let mut i: usize = 0;
        while i < self.maze.len()
            invariant
                i <= self.maze@.len(),
                out@.len() == i,
                forall|k: int|
                    0 <= k < i ==> {
                        &&& (#[trigger] out@[k]).has_border_right == self.maze@[k].has_border_right
                        &&& out@[k].has_border_bottom == self.maze@[k].has_border_bottom
                        &&& out@[k].neighbours@ == self.maze@[k].neighbours@
                    },
            decreases self.maze@.len() - i,
        {
            let c = &self.maze[i];
            let nb = c.neighbours.clone();
            proof {
                assert(nb@ =~= c.neighbours@);
            }
            out.push(Cell { has_border_right: c.has_border_right, has_border_bottom: c.has_border_bottom, neighbours: nb });
            i = i + 1;
        }
        out
    }

    /// Clears the wall between `last_cell_id` and `actual_cell_id` on the cell
    /// that holds it.
    pub fn update_cell_borders(&mut self, last_cell_id: usize, actual_cell_id: usize)
        requires
            old(self).wf(),
            last_cell_id < old(self).size(),
            actual_cell_id < old(self).size(),
        ensures
            final(self).width == old(self).width,
            final(self).visited == old(self).visited,
            final(self).maze@ == cleared(old(self).maze@, old(self).width as int, last_cell_id as int, actual_cell_id as int),
    {
        let w = self.width;
        if actual_cell_id >= last_cell_id && actual_cell_id - last_cell_id == w {
            self.maze[last_cell_id].has_border_bottom = false;
        }
        if last_cell_id >= actual_cell_id && last_cell_id - actual_cell_id == w {
            self.maze[actual_cell_id].has_border_bottom = false;
        }
        if actual_cell_id >= last_cell_id && actual_cell_id - last_cell_id == 1 {
            self.maze[last_cell_id].has_border_right = false;
        }
        if last_cell_id >= actual_cell_id && last_cell_id - actual_cell_id == 1 {
            self.maze[actual_cell_id].has_border_right = false;
        }
    }

    /// `index + d` as a candidate of `index`: a grid neighbour not yet visited.
    pub open spec fn candidate_at(self, index: int, d: int) -> Seq<usize> {
        if is_step(self.width as int, index, index + d) && !self.visited@.contains((index + d) as usize) {
            seq![(index + d) as usize]
        } else {
            seq![]
        }
    }

    /// The unvisited grid neighbours of `index`, scanned right, up, left, down.
    pub open spec fn candidates(self, index: int) -> Seq<usize> {
        let w = self.width as int;
        self.candidate_at(index, 1) + self.candidate_at(index, -w) + self.candidate_at(index, -1)
            + self.candidate_at(index, w)
    }

    /// Generation has finished: every cell was visited once, starting from the
    /// first, and the neighbour lists form a spanning tree rooted there, with
    /// `width * width - 1` edges.
    pub open spec fn is_generated(self) -> bool {
        &&& self.wf()
        &&& self.visited@.len() == self.size()
        &&& self.visited@.no_duplicates()
        &&& self.visited@[0] == 0
        &&& forall|k: int| 0 <= k < self.size() ==> #[trigger] self.visited@[k] < self.size()
        &&& forall|i: int| 0 <= i < self.size() ==> #[trigger] self.visited@.contains(i as usize)
        &&& tree_of(self.maze@, self.visited@, self.width as int)
        &&& edge_count(self.maze@) == self.size() - 1
        &&& walls_match(self.maze@, self.width as int)
    }

    proof fn lemma_candidate(self, index: int, c: usize)
        requires
            self.wf(),
            0 <= index < self.size(),
            self.candidates(index).contains(c),
        ensures
            is_step(self.width as int, index, c as int),
            !self.visited@.contains(c),
    {
        let w = self.width as int;
        let a = self.candidate_at(index, 1);
        let b = self.candidate_at(index, -w);
        let d = self.candidate_at(index, -1);
        let e = self.candidate_at(index, w);
        let k = choose|k: int| 0 <= k < self.candidates(index).len() && self.candidates(index)[k] == c;
        let ab = a + b;
        let abd = ab + d;
        assert(self.candidates(index) == abd + e);
        if k < abd.len() {
            assert(abd[k] == c);
            if k < ab.len() {
                assert(ab[k] == c);
                if k < a.len() {
                    assert(a[k] == c);
                } else {
                    assert(b[k - a.len()] == c);
                }
            } else {
                assert(d[k - ab.len()] == c);
            }
        } else {
            assert(e[k - abd.len()] == c);
        }
    }

    proof fn lemma_no_candidate(self, index: int)
        requires
            self.wf(),
            0 <= index < self.size(),
            self.candidates(index).len() == 0,
        ensures
            forall|c: int| #[trigger] is_step(self.width as int, index, c) ==> self.visited@.contains(c as usize),
    {
        let w = self.width as int;
        assert forall|c: int| #[trigger] is_step(w, index, c) implies self.visited@.contains(c as usize) by {
            let d = c - index;
            assert(self.candidate_at(index, d).len() == 0);
            assert(index + d == c);
        }
    }

    /// Carves the maze: a randomized depth-first walk from the first cell that
    /// enters each unvisited grid neighbour of the active cell, removing the
    /// wall between them and recording the edge, and backtracks when there is
    /// none. Returns a copy of the finished cells.
    #[verifier::rlimit(40)]
    pub fn generate(&mut self) -> (r: Vec<Cell>)
        requires
            old(self).is_fresh(),
        ensures
            final(self).width == old(self).width,
            final(self).is_generated(),
            same_cells(r@, final(self).maze@),
    {
        let ghost w = self.width as int;
        let n: usize = self.width * self.width;
        let mut stack: Vec<usize> = Vec::new();
        stack.push(0);
        self.visited.push(0);
        proof {
            lemma_edge_count_empty(self.maze@);
            assert forall|q: int| 0 <= q < self.maze@.len() implies {
                &&& !(#[trigger] self.maze@[q]).has_border_right <==> (q % w + 1 < w && linked(self.maze@, q, q + 1))
                &&& !self.maze@[q].has_border_bottom <==> (q + w < self.maze@.len() && linked(self.maze@, q, q + w))
            } by {
                assert(self.maze@[q].is_closed());
                if q + 1 < self.maze@.len() {
                    assert(self.maze@[q + 1].is_closed());
                }
                if q + w < self.maze@.len() {
                    assert(self.maze@[q + w].is_closed());
                }
            }
            assert(self.width * self.width >= 1) by (nonlinear_arith)
                requires self.width >= 1;
            assert(self.visited@ =~= seq![0usize]);
            assert(stack@ =~= seq![0usize]);
            assert(self.visited@.contains(0)) by {
                assert(self.visited@[0] == 0);
            }
            assert(stack@.contains(0)) by {
                assert(stack@[0] == 0);
            }
        }
        while self.visited.len() < n
            invariant
                self.wf(),
                self.width as int == w,
                n == self.size(),
                self.visited@.len() >= 1,
                self.visited@[0] == 0,
                self.visited@.no_duplicates(),
                forall|k: int| 0 <= k < self.visited@.len() ==> #[trigger] self.visited@[k] < n,
                tree_of(self.maze@, self.visited@, w),
                edge_count(self.maze@) == self.visited@.len() - 1,
                walls_match(self.maze@, w),
                stack@.no_duplicates(),
                forall|k: int| 0 <= k < stack@.len() ==> self.visited@.contains(#[trigger] stack@[k]),
                forall|v: int, c: int|
                    0 <= v < n && self.visited@.contains(v as usize) && !stack@.contains(v as usize)
                        && #[trigger] is_step(w, v, c) ==> self.visited@.contains(c as usize),
            decreases 2 * (n - self.visited@.len()) + stack@.len(),
        {
            proof {
                if stack@.len() == 0 {
                    assert(self.visited@.contains(0)) by {
                        assert(self.visited@[0] == 0);
                    }
                    assert forall|i: int| 0 <= i < n implies #[trigger] self.visited@.contains(i as usize) by {
                        lemma_closed_covers(w, self.visited@, i);
                    }
                    lemma_distinct_below(self.visited@, n as int);
                }
            }
            let cur: usize = stack[stack.len() - 1];
            assert(self.visited@.contains(stack@[stack@.len() - 1]));
            let ghost v0 = self.visited@;
            let ghost m0 = self.maze@;
            let ghost s0 = stack@;
            match self.get_next_cell_id(&cur) {
                Ok(c) => {
                    proof {
                        self.lemma_candidate(cur as int, c);
                    }
                    self.update_cell_borders(cur, c);
                    self.maze[cur].neighbours.push(c);
                    self.visited.push(c);
                    stack.push(c);
                    proof {
                        let m = self.maze@;
                        assert forall|p: int| 0 <= p < m0.len() && p != cur implies (#[trigger] m[p]).neighbours@ == m0[p].neighbours@ by {
                        }
                        lemma_tree_grow(m0, m, v0, w, cur, c);
                        assert forall|p: int| 0 <= p < m0.len() implies !(#[trigger] m0[p]).neighbours@.contains(c) by {
                            if m0[p].neighbours@.contains(c) {
                                let i = choose|i: int| 0 <= i < m0[p].neighbours@.len() && m0[p].neighbours@[i] == c;
                                assert(is_entry(m0, p, i));
                            }
                        }
                        if m0[c as int].neighbours@.len() > 0 {
                            assert(is_entry(m0, c as int, 0));
                        }
                        lemma_walls_grow(m0, m, w, cur as int, c);
                        let cl = cleared(m0, w, cur as int, c as int);
                        lemma_edge_count_same(m0, cl);
                        lemma_edge_count_update(cl, cur as int, m[cur as int]);
                        assert(m == cl.update(cur as int, m[cur as int]));
                        assert(self.visited@.no_duplicates());
                        assert forall|k: int| 0 <= k < stack@.len() implies self.visited@.contains(#[trigger] stack@[k]) by {
                            if k < s0.len() {
                                assert(v0.contains(s0[k]));
                                lemma_push_contains(v0, c, s0[k]);
                            } else {
                                assert(self.visited@[v0.len() as int] == c);
                            }
                        }
                        assert forall|v: int, x: int|
                            0 <= v < n && self.visited@.contains(v as usize) && !stack@.contains(v as usize)
                                && #[trigger] is_step(w, v, x) implies self.visited@.contains(x as usize) by {
                            if v as usize != c {
                                assert(v0.contains(v as usize));
                                assert(!s0.contains(v as usize)) by {
                                    if s0.contains(v as usize) {
                                        let k = choose|k: int| 0 <= k < s0.len() && s0[k] == v as usize;
                                        assert(stack@[k] == v as usize);
                                    }
                                }
                                assert(v0.contains(x as usize));
                                lemma_push_contains(v0, c, x as usize);
                            } else {
                                assert(stack@[s0.len() as int] == c);
                            }
                        }
                    }
                },
                Err(_) => {
                    proof {
                        self.lemma_no_candidate(cur as int);
                    }
                    stack.pop();
                    proof {
                        assert(s0 == stack@.push(cur));
                        assert forall|v: int, x: int|
                            0 <= v < n && self.visited@.contains(v as usize) && !stack@.contains(v as usize)
                                && #[trigger] is_step(w, v, x) implies self.visited@.contains(x as usize) by {
                            if v as usize != cur {
                                assert(!s0.contains(v as usize)) by {
                                    if s0.contains(v as usize) {
                                        let k = choose|k: int| 0 <= k < s0.len() && s0[k] == v as usize;
                                        assert(stack@[k] == v as usize);
                                    }
                                }
                            } else {
                                assert(v == cur as int);
                            }
                        }
                        assert forall|k: int| 0 <= k < stack@.len() implies self.visited@.contains(#[trigger] stack@[k]) by {
                            assert(stack@[k] == s0[k]);
                        }
                    }
                },
            }
        }
        proof {
            lemma_distinct_below(self.visited@, n as int);
        }
        self.get_cells()
    }

    /// Whether `cell` has been incorporated already.
    pub fn is_visited(&self, cell: usize) -> (r: bool)
        ensures
            r == self.visited@.contains(cell),
    {
        let mut i: usize = 0;
        while i < self.visited.len()
            invariant
                i <= self.visited@.len(),
                forall|k: int| 0 <= k < i ==> self.visited@[k] != cell,
            decreases self.visited@.len() - i,
        {
            if self.visited[i] == cell {
                return true;
            }
            i = i + 1;
        }
        false
    }

    /// Appends `index + d` to `out` when it is a candidate of `index`.
    fn push_candidate(&self, index: usize, d: i64, out: &mut Vec<usize>)
        requires
            self.wf(),
            index < self.size(),
            -(self.width as int) <= d <= self.width,
        ensures
            final(out)@ == old(out)@ + self.candidate_at(index as int, d as int),
    {
        proof {
            assert(self.width <= self.width * self.width) by (nonlinear_arith)
                requires self.width >= 1;
        }
        let next: i64 = index as i64 + d;
        if next > 2147483647 {
            proof {
                assert(self.width * self.width <= MAX_CELLS);
                assert(!is_step(self.width as int, index as int, next as int));
                assert(self.candidate_at(index as int, d as int) =~= seq![]);
            }
            assert(final(out)@ =~= old(out)@ + self.candidate_at(index as int, d as int));
            return;
        }
        if next >= -2147483648 && self.can_have_neighbour(index, next as i32, self.width) {
            let c: usize = next as usize;
            if !self.is_visited(c) {
                out.push(c);
                assert(self.candidate_at(index as int, d as int) =~= seq![c]);
                return;
            }
        }
        assert(self.candidate_at(index as int, d as int) =~= seq![]);
        assert(final(out)@ =~= old(out)@ + self.candidate_at(index as int, d as int));
    }

    /// The unvisited grid neighbours of `index`, in the order right, up, left, down.
    pub fn next_candidates(&self, index: usize) -> (r: Vec<usize>)
        requires
            self.wf(),
            index < self.size(),
        ensures
            r@ == self.candidates(index as int),
    {
        proof {
            assert(self.width <= self.width * self.width) by (nonlinear_arith)
                requires self.width >= 1;
        }
        let w: i64 = self.width as i64;
        let mut out: Vec<usize> = Vec::new();
        self.push_candidate(index, 1, &mut out);
        assert(out@ =~= self.candidate_at(index as int, 1));
        self.push_candidate(index, -w, &mut out);
        self.push_candidate(index, -1, &mut out);
        self.push_candidate(index, w, &mut out);
        assert(out@ =~= self.candidates(index as int));
        out
    }

    /// Picks one unvisited grid neighbour of `index` at random; fails when there
    /// is none.
    pub fn get_next_cell_id(&self, index: &usize) -> (r: Result<usize, NextCellError>)
        requires
            self.wf(),
            *index < self.size(),
        ensures
            match r {
                Ok(c) => self.candidates(*index as int).contains(c),
                Err(e) => e == NextCellError::NoNeighbourAvailable && self.candidates(*index as int).len() == 0,
            },
    {
        let possible = self.next_candidates(*index);
        if possible.len() == 0 {
            return Err(NextCellError::NoNeighbourAvailable);
        }
        let draw: usize = if possible.len() == 1 {
            0
        } else {
            random_below(possible.len())
        };
        let c = pick_candidate(&possible, draw);
        assert(possible@[draw as int] == c);
        Ok(c)
    }

    /// Whether `next` is a grid neighbour of `actual` on a grid of the given width.
    pub fn can_have_neighbour(&self, actual: usize, next: i32, width: usize) -> (r: bool)
        requires
            width >= 1,
            width * width <= MAX_CELLS,
        ensures
            r == is_step(width as int, actual as int, next as int),
    {
        if next < 0 {
            return false;
        }
        let n: usize = width * width;
        let nx: usize = next as usize;
        if nx >= n {
            return false;
        }
        if nx > actual && nx - actual == 1 {
            actual % width + 1 < width
        } else if actual > nx && actual - nx == 1 {
            actual % width > 0
        } else {
            (nx > actual && nx - actual == width) || (actual > nx && actual - nx == width)
        }
    }
}

} // verus!
