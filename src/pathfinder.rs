use vstd::prelude::*;
use crate::maze::{Cell, Maze};
use crate::tree::{edge_count, entered_before, is_entry, tree_of};

verus! {

/// The search exhausted every cell reachable from the entry without meeting
/// the goal.
#[derive(Debug, PartialEq, Eq, Structural)]
pub enum PathError {
    PathNotFound,
}

/// Every recorded edge leads to a cell of the grid.
pub open spec fn graph_wf(cells: Seq<Cell>) -> bool {
    forall|p: int, i: int| #[trigger] is_entry(cells, p, i) ==> cells[p].neighbours@[i] < cells.len()
}

/// The `i`-th step of `path` follows a recorded edge.
pub open spec fn step_ok(cells: Seq<Cell>, path: Seq<usize>, i: int) -> bool {
    &&& path[i] < cells.len()
    &&& cells[path[i] as int].neighbours@.contains(path[i + 1])
}

/// `path` starts at `from`, ends at `to`, and each step follows a recorded edge.
pub open spec fn is_path(cells: Seq<Cell>, path: Seq<usize>, from: int, to: int) -> bool {
    &&& path.len() >= 1
    &&& path[0] == from
    &&& path.last() == to
    &&& forall|i: int| 0 <= i < path.len() - 1 ==> #[trigger] step_ok(cells, path, i)
}

/// Some path leads from `from` to `to`.
pub open spec fn reachable(cells: Seq<Cell>, from: int, to: int) -> bool {
    exists|path: Seq<usize>| is_path(cells, path, from, to)
}

/// A path that starts inside a set closed under the recorded edges stays in it.
proof fn lemma_path_stays(cells: Seq<Cell>, seen: Seq<bool>, path: Seq<usize>, from: int, to: int, k: int)
    requires
        is_path(cells, path, from, to),
        seen.len() == cells.len(),
        0 <= from < cells.len(),
        seen[from],
        forall|v: int, i: int| #[trigger] is_entry(cells, v, i) && seen[v] ==> cells[v].neighbours@[i] < cells.len() && seen[cells[v].neighbours@[i] as int],
        0 <= k < path.len(),
    ensures
        path[k] < cells.len(),
        seen[path[k] as int],
    decreases k,
{
    if k > 0 {
        lemma_path_stays(cells, seen, path, from, to, k - 1);
        let v = path[k - 1] as int;
        assert(step_ok(cells, path, k - 1));
        let i = choose|i: int| 0 <= i < cells[v].neighbours@.len() && cells[v].neighbours@[i] == path[k];
        assert(is_entry(cells, v, i));
    }
}

/// The state of one search: which cells were reached, from where, and in what
/// order.
struct Search {
    seen: Vec<bool>,
    pred: Vec<usize>,
    pos: Vec<usize>,
    queue: Vec<usize>,
}

impl Search {
    /// `queue` lists the reached cells, `pos` gives each one's place in it, and
    /// each reached cell but `start` was entered by an edge from a cell reached
    /// before it.
    spec fn inv(self, cells: Seq<Cell>, start: int) -> bool {
        let n = cells.len();
        &&& 0 <= start < n
        &&& self.seen@.len() == n
        &&& self.pred@.len() == n
        &&& self.pos@.len() == n
        &&& self.queue@.len() >= 1
        &&& self.queue@[0] == start
        &&& self.queue@.len() <= n
        &&& self.queue@.no_duplicates()
        &&& forall|k: int| 0 <= k < self.queue@.len() ==> #[trigger] self.queue@[k] < n
        &&& forall|v: int| 0 <= v < n ==> (#[trigger] self.seen@[v] <==> self.queue@.contains(v as usize))
        &&& forall|v: int|
            0 <= v < n && #[trigger] self.seen@[v] ==> self.pos@[v] < self.queue@.len()
                && self.queue@[self.pos@[v] as int] == v
        &&& forall|v: int|
            0 <= v < n && #[trigger] self.seen@[v] && v != start ==> {
                &&& self.pred@[v] < n
                &&& self.seen@[self.pred@[v] as int]
                &&& self.pos@[self.pred@[v] as int] < self.pos@[v]
                &&& cells[self.pred@[v] as int].neighbours@.contains(v as usize)
            }
    }

    fn new(cells: &Vec<Cell>, start: usize) -> (r: Search)
        requires
            start < cells@.len(),
        ensures
            r.inv(cells@, start as int),
    {
        let n: usize = cells.len();
        let mut seen: Vec<bool> = Vec::new();
        let mut pred: Vec<usize> = Vec::new();
        let mut pos: Vec<usize> = Vec::new();
        let mut k: usize = 0;
        while k < n
            invariant
                k <= n,
                seen@.len() == k,
                pred@.len() == k,
                pos@.len() == k,
                forall|v: int| 0 <= v < k ==> !(#[trigger] seen@[v]),
                forall|v: int| 0 <= v < k ==> #[trigger] pos@[v] == 0,
            decreases n - k,
        {
            seen.push(false);
            pred.push(0);
            pos.push(0);
            k = k + 1;
        }
        seen.set(start, true);
        let mut queue: Vec<usize> = Vec::new();
        queue.push(start);
        let r = Search { seen, pred, pos, queue };
        assert forall|v: int| 0 <= v < n implies (#[trigger] r.seen@[v] <==> r.queue@.contains(v as usize)) by {
            assert(r.queue@[0] == start);
        }
        assert(r.queue@.len() == 1);
        assert forall|v: int| 0 <= v < n && #[trigger] r.seen@[v] implies r.pos@[v] < r.queue@.len()
            && r.queue@[r.pos@[v] as int] == v by {
            assert(v == start as int);
        }
        r
    }

    /// Reaches `x` from `v` unless it was reached already.
    fn visit(&mut self, cells: &Vec<Cell>, start: usize, v: usize, x: usize)
        requires
            old(self).inv(cells@, start as int),
            v < cells@.len(),
            x < cells@.len(),
            old(self).seen@[v as int],
            cells@[v as int].neighbours@.contains(x),
        ensures
            final(self).inv(cells@, start as int),
            final(self).seen@[x as int],
            final(self).queue@.len() >= old(self).queue@.len(),
            final(self).queue@.subrange(0, old(self).queue@.len() as int) == old(self).queue@,
            forall|y: int| 0 <= y < cells@.len() && #[trigger] old(self).seen@[y] ==> final(self).seen@[y],
    {
        if self.seen[x] {
            assert(self.queue@.subrange(0, self.queue@.len() as int) =~= self.queue@);
            return;
        }
        let n: usize = cells.len();
        let ghost qb = self.queue@;
        proof {
            assert(!qb.contains(x));
            crate::tree::lemma_distinct_below(qb, n as int);
            if qb.len() == n {
                assert(qb.contains(x));
            }
        }
        let at: usize = self.queue.len();
        self.seen.set(x, true);
        self.pred.set(x, v);
        self.pos.set(x, at);
        self.queue.push(x);
        proof {
            assert(self.queue@.subrange(0, qb.len() as int) =~= qb);
            assert forall|y: int| 0 <= y < n implies (#[trigger] self.seen@[y] <==> self.queue@.contains(y as usize)) by {
                if y != x as int {
                    if qb.contains(y as usize) {
                        let j = choose|j: int| 0 <= j < qb.len() && qb[j] == y as usize;
                        assert(self.queue@[j] == y as usize);
                    }
                    if self.queue@.contains(y as usize) {
                        let j = choose|j: int| 0 <= j < self.queue@.len() && self.queue@[j] == y as usize;
                        assert(j < qb.len());
                        assert(qb[j] == y as usize);
                    }
                } else {
                    assert(self.queue@[qb.len() as int] == x);
                }
            }
        }
    }
}

/// Breadth-first search over the recorded edges from `start` to `goal`: a
/// path without repeated cells, or `PathNotFound` exactly when none exists.
pub fn find_path(cells: &Vec<Cell>, start: usize, goal: usize) -> (r: Result<Vec<usize>, PathError>)
    requires
        graph_wf(cells@),
        start < cells@.len(),
        goal < cells@.len(),
    ensures
        match r {
            Ok(path) => is_path(cells@, path@, start as int, goal as int) && path@.no_duplicates(),
            Err(e) => e == PathError::PathNotFound && !reachable(cells@, start as int, goal as int),
        },
{
    let n: usize = cells.len();
    let mut st = Search::new(cells, start);
    let mut head: usize = 0;
    let mut found = false;
    while !found && head < st.queue.len()
        invariant
            n == cells@.len(),
            graph_wf(cells@),
            goal < n,
            st.inv(cells@, start as int),
            head <= st.queue@.len(),
            forall|k: int, i: int|
                0 <= k < head && #[trigger] is_entry(cells@, st.queue@[k] as int, i)
                    ==> st.seen@[cells@[st.queue@[k] as int].neighbours@[i] as int],
            forall|k: int| 0 <= k < head ==> #[trigger] st.queue@[k] != goal,
            found ==> head < st.queue@.len() && st.queue@[head as int] == goal,
        decreases 2 * (n - head) + (if found { 0int } else { 1int }),
    {
        let v: usize = st.queue[head];
        if v == goal {
            found = true;
        } else {
            let nb = &cells[v].neighbours;
            let ghost q0 = st.queue@;
            let ghost s0 = st.seen@;
            assert(st.seen@[v as int]) by {
                assert(st.queue@.contains(v));
            }
            let mut i: usize = 0;
            while i < nb.len()
                invariant
                    n == cells@.len(),
                    graph_wf(cells@),
                    v < n,
                    head < q0.len(),
                    v == q0[head as int],
                    nb@ == cells@[v as int].neighbours@,
                    i <= nb@.len(),
                    st.inv(cells@, start as int),
                    st.seen@[v as int],
                    st.queue@.len() >= q0.len(),
                    st.queue@.subrange(0, q0.len() as int) == q0,
                    forall|y: int| 0 <= y < n && #[trigger] s0[y] ==> st.seen@[y],
                    forall|j: int| 0 <= j < i ==> st.seen@[#[trigger] nb@[j] as int],
                decreases nb@.len() - i,
            {
                let x: usize = nb[i];
                assert(is_entry(cells@, v as int, i as int));
                let ghost q1 = st.queue@;
                let ghost s1 = st.seen@;
                st.visit(cells, start, v, x);
                proof {
                    assert(st.queue@.subrange(0, q0.len() as int) =~= q0) by {
                        assert forall|k: int| 0 <= k < q0.len() implies st.queue@[k] == q0[k] by {
                            assert(st.queue@.subrange(0, q1.len() as int)[k] == q1[k]);
                            assert(q1.subrange(0, q0.len() as int)[k] == q0[k]);
                        }
                    }
                    assert forall|j: int| 0 <= j < i + 1 implies st.seen@[#[trigger] nb@[j] as int] by {
                        if j < i {
                            assert(is_entry(cells@, v as int, j));
                            assert(s1[nb@[j] as int]);
                        }
                    }
                    assert forall|y: int| 0 <= y < n && #[trigger] s0[y] implies st.seen@[y] by {
                        assert(s1[y]);
                    }
                }
                i = i + 1;
            }
            proof {
                assert forall|k: int, j: int|
                    0 <= k < head + 1 && #[trigger] is_entry(cells@, st.queue@[k] as int, j)
                        implies st.seen@[cells@[st.queue@[k] as int].neighbours@[j] as int] by {
                    assert(st.queue@[k] == q0[k]) by {
                        assert(st.queue@.subrange(0, q0.len() as int)[k] == q0[k]);
                    }
                    if k == head {
                        assert(nb@[j] == cells@[st.queue@[k] as int].neighbours@[j]);
                    } else {
                        assert(is_entry(cells@, q0[k] as int, j));
                        assert(cells@[q0[k] as int].neighbours@[j] < n);
                        assert(s0[cells@[q0[k] as int].neighbours@[j] as int]);
                    }
                }
                assert forall|k: int| 0 <= k < head + 1 implies #[trigger] st.queue@[k] != goal by {
                    assert(st.queue@.subrange(0, q0.len() as int)[k] == q0[k]);
                }
            }
            head = head + 1;
        }
    }
    if !found {
        proof {
            assert(!st.seen@[goal as int]) by {
                if st.seen@[goal as int] {
                    let k = choose|k: int| 0 <= k < st.queue@.len() && st.queue@[k] == goal;
                }
            }
            if reachable(cells@, start as int, goal as int) {
                let path = choose|path: Seq<usize>| is_path(cells@, path, start as int, goal as int);
                assert forall|v: int, i: int| #[trigger] is_entry(cells@, v, i) && st.seen@[v] implies
                    cells@[v].neighbours@[i] < cells@.len() && st.seen@[cells@[v].neighbours@[i] as int] by {
                    let k = st.pos@[v] as int;
                    assert(st.queue@[k] == v as usize);
                    assert(is_entry(cells@, st.queue@[k] as int, i));
                }
                assert(st.seen@[start as int]) by {
                    assert(st.queue@[0] == start);
                }
                lemma_path_stays(cells@, st.seen@, path, start as int, goal as int, path.len() - 1);
            }
        }
        return Err(PathError::PathNotFound);
    }
    let mut path: Vec<usize> = Vec::new();
    path.push(goal);
    let mut cur: usize = goal;
    assert(st.seen@[goal as int]) by {
        assert(st.queue@[head as int] == goal);
    }
    while cur != start
        invariant
            n == cells@.len(),
            st.inv(cells@, start as int),
            cur < n,
            st.seen@[cur as int],
            is_path(cells@, path@, cur as int, goal as int),
            forall|a: int, b: int|
                0 <= a < b < path@.len() ==> st.pos@[#[trigger] path@[a] as int] < st.pos@[#[trigger] path@[b] as int],
            forall|a: int| 0 <= a < path@.len() ==> #[trigger] path@[a] < n && st.seen@[path@[a] as int],
        decreases st.pos@[cur as int],
    {
        let p: usize = st.pred[cur];
        let ghost old_path = path@;
        path.insert(0, p);
        proof {
            assert(path@ == seq![p] + old_path);
            assert forall|a: int, b: int| 0 <= a < b < path@.len() implies st.pos@[#[trigger] path@[a] as int] < st.pos@[#[trigger] path@[b] as int] by {
                if a == 0 && b > 1 {
                    assert(st.pos@[old_path[0] as int] < st.pos@[old_path[b - 1] as int]);
                }
            }
            assert forall|i: int| 0 <= i < path@.len() - 1 implies #[trigger] step_ok(cells@, path@, i) by {
                if i > 0 {
                    assert(path@[i] == old_path[i - 1]);
                    assert(path@[i + 1] == old_path[i]);
                    assert(old_path[i - 1] < n);
                    assert(step_ok(cells@, old_path, i - 1));
                } else {
                    assert(path@[1] == cur);
                }
            }
        }
        cur = p;
    }
    proof {
        assert forall|a: int, b: int| 0 <= a < path@.len() && 0 <= b < path@.len() && a != b implies path@[a] != path@[b] by {
            if a < b {
                assert(st.pos@[path@[a] as int] < st.pos@[path@[b] as int]);
            } else {
                assert(st.pos@[path@[b] as int] < st.pos@[path@[a] as int]);
            }
        }
    }
    Ok(path)
}

/// The place of `x` in `order`.
spec fn rank(order: Seq<usize>, x: usize) -> int {
    choose|k: int| 0 <= k < order.len() && order[k] == x
}

proof fn lemma_rank(order: Seq<usize>, k: int)
    requires
        order.no_duplicates(),
        0 <= k < order.len(),
    ensures
        rank(order, order[k]) == k,
{
    assert(order.contains(order[k]));
    let r = rank(order, order[k]);
    assert(order[r] == order[k]);
}

/// Every edge of a tree leads from a cell to one later in `order`.
proof fn lemma_edge_forward(cells: Seq<Cell>, order: Seq<usize>, width: int, p: int, i: int)
    requires
        tree_of(cells, order, width),
        order.no_duplicates(),
        is_entry(cells, p, i),
    ensures
        order.contains(p as usize),
        order.contains(cells[p].neighbours@[i]),
        rank(order, p as usize) < rank(order, cells[p].neighbours@[i]),
        order[rank(order, p as usize)] as int == p,
{
    let c = cells[p].neighbours@[i];
    assert(order.contains(c));
    let k = choose|k: int| 0 <= k < order.len() && order[k] == c;
    lemma_rank(order, k);
    assert(k >= 1);
    assert(entered_before(cells, order, k));
    let (j, i2) = choose|j: int, i2: int|
        0 <= j < k && is_entry(cells, order[j] as int, i2) && #[trigger] cells[order[j] as int].neighbours@[i2] == order[k];
    assert(order[j] as int == p);
    lemma_rank(order, j);
    assert(order[j] == p as usize);
}

/// Along a path of a tree, each step moves later in `order`.
proof fn lemma_path_rank(cells: Seq<Cell>, order: Seq<usize>, width: int, path: Seq<usize>, a: int, b: int, m: int)
    requires
        tree_of(cells, order, width),
        order.no_duplicates(),
        is_path(cells, path, a, b),
        order.contains(path[0]),
        0 <= m < path.len(),
    ensures
        order.contains(path[m]),
        rank(order, path[m]) >= rank(order, path[0]) + m,
    decreases m,
{
    if m > 0 {
        lemma_path_rank(cells, order, width, path, a, b, m - 1);
        let p = path[m - 1] as int;
        assert(step_ok(cells, path, m - 1));
        let i = choose|i: int| 0 <= i < cells[p].neighbours@.len() && cells[p].neighbours@[i] == path[m];
        lemma_edge_forward(cells, order, width, p, i);
        assert(order.contains(path[m]));
    }
}

/// A generated maze is a spanning tree of the grid: it has `width * width - 1`
/// edges, every cell is reachable from the first, no path returns to the cell
/// it started from, and no cell is entered by two edges.
pub proof fn lemma_spanning_tree(m: Maze)
    requires
        m.is_generated(),
    ensures
        edge_count(m.maze@) == m.size() - 1,
        forall|c: int| 0 <= c < m.size() ==> #[trigger] reachable(m.maze@, 0, c),
        forall|path: Seq<usize>, a: int| #[trigger] is_path(m.maze@, path, a, a) ==> path.len() == 1,
        forall|p1: int, i1: int, p2: int, i2: int|
            is_entry(m.maze@, p1, i1) && is_entry(m.maze@, p2, i2)
                && #[trigger] m.maze@[p1].neighbours@[i1] == #[trigger] m.maze@[p2].neighbours@[i2]
                ==> p1 == p2 && i1 == i2,
{
    let cells = m.maze@;
    let order = m.visited@;
    let w = m.width as int;
    assert forall|k: int| 0 <= k < order.len() implies #[trigger] reachable(cells, 0, order[k] as int) by {
        lemma_reach_order(cells, order, w, k);
    }
    assert forall|c: int| 0 <= c < m.size() implies #[trigger] reachable(cells, 0, c) by {
        assert(order.contains(c as usize));
        let k = choose|k: int| 0 <= k < order.len() && order[k] == c as usize;
        assert(reachable(cells, 0, order[k] as int));
    }
    assert forall|path: Seq<usize>, a: int| #[trigger] is_path(cells, path, a, a) implies path.len() == 1 by {
        if path.len() > 1 {
            assert(step_ok(cells, path, 0));
            assert(path[0] < cells.len());
            assert(order.contains((path[0] as int) as usize));
            lemma_path_rank(cells, order, w, path, a, a, path.len() - 1);
        }
    }
}

/// Each cell of `order` is reachable from its first cell.
proof fn lemma_reach_order(cells: Seq<Cell>, order: Seq<usize>, width: int, k: int)
    requires
        tree_of(cells, order, width),
        order[0] == 0,
        0 <= k < order.len(),
        forall|j: int| 0 <= j < order.len() ==> #[trigger] order[j] < cells.len(),
    ensures
        reachable(cells, 0, order[k] as int),
    decreases k,
{
    if k == 0 {
        let path = seq![0usize];
        assert(is_path(cells, path, 0, 0));
    } else {
        assert(entered_before(cells, order, k));
        let (j, i) = choose|j: int, i: int|
            0 <= j < k && is_entry(cells, order[j] as int, i) && #[trigger] cells[order[j] as int].neighbours@[i] == order[k];
        lemma_reach_order(cells, order, width, j);
        let path = choose|path: Seq<usize>| is_path(cells, path, 0, order[j] as int);
        let p2 = path.push(order[k]);
        assert forall|t: int| 0 <= t < p2.len() - 1 implies #[trigger] step_ok(cells, p2, t) by {
            if t < path.len() - 1 {
                assert(step_ok(cells, path, t));
                assert(p2[t] == path[t] && p2[t + 1] == path[t + 1]);
            } else {
                assert(p2[t] == order[j]);
                assert(cells[order[j] as int].neighbours@[i] == order[k]);
            }
        }
        assert(p2[0] == path[0]);
        assert(p2.last() == order[k]);
        assert(is_path(cells, p2, 0, order[k] as int));
    }
}

/// In a generated maze two paths between the same cells are the same path, so
/// every search between them returns the same result.
pub proof fn lemma_path_unique(m: Maze, p1: Seq<usize>, p2: Seq<usize>, a: int, b: int)
    requires
        m.is_generated(),
        is_path(m.maze@, p1, a, b),
        is_path(m.maze@, p2, a, b),
    ensures
        p1 == p2,
    decreases p1.len() + p2.len(),
{
    lemma_spanning_tree(m);
    let cells = m.maze@;
    if p1.len() == 1 && p2.len() == 1 {
        assert(p1 =~= p2);
    } else if p1.len() == 1 {
        assert(is_path(cells, p2, a, a));
    } else if p2.len() == 1 {
        assert(is_path(cells, p1, a, a));
    } else {
        let l1 = p1.len() - 1;
        let l2 = p2.len() - 1;
        let x1 = p1[l1 - 1];
        let x2 = p2[l2 - 1];
        assert(step_ok(cells, p1, l1 - 1));
        assert(step_ok(cells, p2, l2 - 1));
        let i1 = choose|i: int| 0 <= i < cells[x1 as int].neighbours@.len() && cells[x1 as int].neighbours@[i] == b as usize;
        let i2 = choose|i: int| 0 <= i < cells[x2 as int].neighbours@.len() && cells[x2 as int].neighbours@[i] == b as usize;
        assert(is_entry(cells, x1 as int, i1) && is_entry(cells, x2 as int, i2));
        assert(x1 == x2);
        let q1 = p1.drop_last();
        let q2 = p2.drop_last();
        assert forall|t: int| 0 <= t < q1.len() - 1 implies #[trigger] step_ok(cells, q1, t) by {
            assert(step_ok(cells, p1, t));
            assert(q1[t] == p1[t] && q1[t + 1] == p1[t + 1]);
        }
        assert forall|t: int| 0 <= t < q2.len() - 1 implies #[trigger] step_ok(cells, q2, t) by {
            assert(step_ok(cells, p2, t));
            assert(q2[t] == p2[t] && q2[t + 1] == p2[t + 1]);
        }
        assert(q1.last() == x1 && q1[0] == a);
        assert(q2.last() == x2 && q2[0] == a);
        lemma_path_unique(m, q1, q2, a, x1 as int);
        assert(p1 =~= q1.push(b as usize));
        assert(p2 =~= q2.push(b as usize));
    }
}

/// Searches a generated maze from its first cell to its last: the search
/// always succeeds, with the one path between them.
pub fn solve(maze: &Maze) -> (r: Result<Vec<usize>, PathError>)
    requires
        maze.is_generated(),
    ensures
        match r {
            Ok(path) => is_path(maze.maze@, path@, 0, maze.size() - 1) && path@.no_duplicates(),
            Err(_) => false,
        },
{
    proof {
        lemma_spanning_tree(*maze);
        assert(maze.width * maze.width >= 1) by (nonlinear_arith)
            requires maze.width >= 1;
        assert(reachable(maze.maze@, 0, maze.size() - 1));
        assert forall|p: int, i: int| #[trigger] is_entry(maze.maze@, p, i) implies maze.maze@[p].neighbours@[i] < maze.maze@.len() by {
            let c = maze.maze@[p].neighbours@[i];
            assert(maze.visited@.contains(c));
        }
    }
    let goal: usize = maze.width * maze.width - 1;
    find_path(&maze.maze, 0, goal)
}

} // verus!
