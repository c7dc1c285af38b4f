use vstd::prelude::*;
use vstd::arithmetic::div_mod::{lemma_fundamental_div_mod, lemma_fundamental_div_mod_converse};
use vstd::set_lib::*;
use crate::maze::{cleared, is_step, Cell};

verus! {

/// `(p, i)` names the `i`-th entry of cell `p`'s neighbour list.
pub open spec fn is_entry(cells: Seq<Cell>, p: int, i: int) -> bool {
    0 <= p < cells.len() && 0 <= i < cells[p].neighbours@.len()
}

/// Number of tree edges recorded over all neighbour lists.
pub open spec fn edge_count(cells: Seq<Cell>) -> nat
    decreases cells.len(),
{
    if cells.len() == 0 {
        0
    } else {
        edge_count(cells.drop_last()) + cells.last().neighbours@.len()
    }
}

/// The neighbour lists form a tree over the cells of `order`, rooted at its
/// first cell: every edge joins two grid neighbours of `order`, no edge enters
/// the root, no cell is entered twice, and each later cell of `order` is
/// entered from a cell that comes before it.
pub open spec fn tree_of(cells: Seq<Cell>, order: Seq<usize>, width: int) -> bool {
    &&& order.len() >= 1
    &&& forall|p: int, i: int|
        #[trigger] is_entry(cells, p, i) ==> {
            &&& order.contains(p as usize)
            &&& order.contains(cells[p].neighbours@[i])
            &&& is_step(width, p, cells[p].neighbours@[i] as int)
            &&& cells[p].neighbours@[i] != order[0]
        }
    &&& forall|p1: int, i1: int, p2: int, i2: int|
        is_entry(cells, p1, i1) && is_entry(cells, p2, i2)
            && #[trigger] cells[p1].neighbours@[i1] == #[trigger] cells[p2].neighbours@[i2]
            ==> p1 == p2 && i1 == i2
    &&& forall|k: int| 1 <= k < order.len() ==> #[trigger] entered_before(cells, order, k)
}

/// The `k`-th cell of `order` is entered from a cell that comes before it.
pub open spec fn entered_before(cells: Seq<Cell>, order: Seq<usize>, k: int) -> bool {
    exists|j: int, i: int|
        0 <= j < k && is_entry(cells, order[j] as int, i)
            && #[trigger] cells[order[j] as int].neighbours@[i] == order[k]
}

/// A tree edge joins `a` and `b`, in either direction.
pub open spec fn linked(cells: Seq<Cell>, a: int, b: int) -> bool {
    &&& 0 <= a < cells.len()
    &&& 0 <= b < cells.len()
    &&& cells[a].neighbours@.contains(b as usize) || cells[b].neighbours@.contains(a as usize)
}

/// A wall is missing exactly where a tree edge crosses it: the right wall of
/// a cell toward the next cell of its row, the bottom wall toward the cell
/// below.
pub open spec fn walls_match(cells: Seq<Cell>, width: int) -> bool {
    forall|q: int|
        0 <= q < cells.len() ==> {
            &&& !(#[trigger] cells[q]).has_border_right <==> (q % width + 1 < width && linked(cells, q, q + 1))
            &&& !cells[q].has_border_bottom <==> (q + width < cells.len() && linked(cells, q, q + width))
        }
}

pub proof fn lemma_edge_count_update(cells: Seq<Cell>, p: int, c: Cell)
    requires
        0 <= p < cells.len(),
    ensures
        edge_count(cells.update(p, c)) == edge_count(cells) - cells[p].neighbours@.len()
            + c.neighbours@.len(),
    decreases cells.len(),
{
    let u = cells.update(p, c);
    if p == cells.len() - 1 {
        assert(u.drop_last() =~= cells.drop_last());
    } else {
        lemma_edge_count_update(cells.drop_last(), p, c);
        assert(u.drop_last() =~= cells.drop_last().update(p, c));
    }
}

pub proof fn lemma_edge_count_same(a: Seq<Cell>, b: Seq<Cell>)
    requires
        a.len() == b.len(),
        forall|i: int| 0 <= i < a.len() ==> (#[trigger] a[i]).neighbours@.len() == b[i].neighbours@.len(),
    ensures
        edge_count(a) == edge_count(b),
    decreases a.len(),
{
    if a.len() > 0 {
        lemma_edge_count_same(a.drop_last(), b.drop_last());
    }
}

pub proof fn lemma_edge_count_empty(a: Seq<Cell>)
    requires
        forall|i: int| 0 <= i < a.len() ==> (#[trigger] a[i]).neighbours@.len() == 0,
    ensures
        edge_count(a) == 0,
    decreases a.len(),
{
    if a.len() > 0 {
        lemma_edge_count_empty(a.drop_last());
    }
}

/// A sequence of distinct values below `n` is no longer than `n`, and has
/// length `n` exactly when it holds every value below `n`.
pub proof fn lemma_distinct_below(s: Seq<usize>, n: int)
    requires
        0 <= n <= usize::MAX,
        s.no_duplicates(),
        forall|k: int| 0 <= k < s.len() ==> s[k] < n,
    ensures
        s.len() <= n,
        s.len() == n <==> forall|i: int| 0 <= i < n ==> #[trigger] s.contains(i as usize),
{
    let t = s.map_values(|x: usize| x as int);
    assert forall|a: int, b: int| 0 <= a < t.len() && 0 <= b < t.len() && a != b implies t[a] != t[b] by {
        assert(s[a] != s[b]);
    }
    assert(t.no_duplicates());
    t.unique_seq_to_set();
    let r = set_int_range(0, n);
    lemma_int_range(0, n);
    assert(t.to_set().subset_of(r)) by {
        assert forall|x: int| t.to_set().contains(x) implies r.contains(x) by {
            let k = choose|k: int| 0 <= k < t.len() && t[k] == x;
            assert(s[k] < n);
        }
    }
    lemma_len_subset(t.to_set(), r);
    if s.len() == n {
        lemma_subset_equality(t.to_set(), r);
        assert forall|i: int| 0 <= i < n implies #[trigger] s.contains(i as usize) by {
            assert(r.contains(i));
            assert(t.to_set().contains(i));
            let k = choose|k: int| 0 <= k < t.len() && t[k] == i;
            assert(s[k] == i as usize);
        }
    }
    if forall|i: int| 0 <= i < n ==> #[trigger] s.contains(i as usize) {
        assert(r.subset_of(t.to_set())) by {
            assert forall|x: int| r.contains(x) implies t.to_set().contains(x) by {
                assert(0 <= x < n);
                assert(s.contains(x as usize));
                let k = choose|k: int| 0 <= k < s.len() && s[k] == x as usize;
                assert(t[k] == x);
            }
        }
        lemma_len_subset(r, t.to_set());
    }
}

/// Entering a new cell `c` from a cell `cur` of the tree, by one more entry at
/// the end of `cur`'s neighbour list, gives a tree over one more cell.
pub proof fn lemma_push_contains(s: Seq<usize>, e: usize, x: usize)
    requires
        s.contains(x),
    ensures
        s.push(e).contains(x),
{
    let j = choose|j: int| 0 <= j < s.len() && s[j] == x;
    assert(s.push(e)[j] == x);
}

pub proof fn lemma_tree_grow(cells: Seq<Cell>, grown: Seq<Cell>, order: Seq<usize>, width: int, cur_id: usize, c: usize)
    requires
        tree_of(cells, order, width),
        0 <= cur_id < cells.len(),
        order.contains(cur_id),
        !order.contains(c),
        is_step(width, cur_id as int, c as int),
        grown.len() == cells.len(),
        forall|p: int| 0 <= p < cells.len() && p != cur_id ==> (#[trigger] grown[p]).neighbours@ == cells[p].neighbours@,
        grown[cur_id as int].neighbours@ == cells[cur_id as int].neighbours@.push(c),
    ensures
        tree_of(grown, order.push(c), width),
{
    let cur = cur_id as int;
    let o2 = order.push(c);
    assert forall|p: int, i: int| is_entry(grown, p, i) && !(p == cur && i == cells[cur].neighbours@.len()) implies
        is_entry(cells, p, i) && #[trigger] grown[p].neighbours@[i] == cells[p].neighbours@[i] by {
        if p != cur {
            assert(grown[p].neighbours@ == cells[p].neighbours@);
        }
    }
    assert forall|p: int, i: int| #[trigger] is_entry(grown, p, i) implies {
        &&& o2.contains(p as usize)
        &&& o2.contains(grown[p].neighbours@[i])
        &&& is_step(width, p, grown[p].neighbours@[i] as int)
        &&& grown[p].neighbours@[i] != o2[0]
    } by {
        if p == cur && i == cells[cur].neighbours@.len() {
            let j = choose|j: int| 0 <= j < order.len() && order[j] == cur as usize;
            assert(o2[j] == cur as usize);
            assert(o2[order.len() as int] == c);
            assert(order.contains(order[0]));
        } else {
            assert(cells[p].neighbours@[i] == grown[p].neighbours@[i]);
            let j1 = choose|j: int| 0 <= j < order.len() && order[j] == p as usize;
            assert(o2[j1] == p as usize);
            let j2 = choose|j: int| 0 <= j < order.len() && order[j] == cells[p].neighbours@[i];
            assert(o2[j2] == cells[p].neighbours@[i]);
        }
    }
    assert forall|p1: int, i1: int, p2: int, i2: int|
        is_entry(grown, p1, i1) && is_entry(grown, p2, i2)
            && #[trigger] grown[p1].neighbours@[i1] == #[trigger] grown[p2].neighbours@[i2]
        implies p1 == p2 && i1 == i2 by {
        let n1 = p1 == cur && i1 == cells[cur].neighbours@.len();
        let n2 = p2 == cur && i2 == cells[cur].neighbours@.len();
        if n1 && !n2 {
            assert(order.contains(cells[p2].neighbours@[i2]));
        } else if !n1 && n2 {
            assert(order.contains(cells[p1].neighbours@[i1]));
        } else if !n1 && !n2 {
            assert(cells[p1].neighbours@[i1] == cells[p2].neighbours@[i2]);
        }
    }
    assert forall|k: int| 1 <= k < o2.len() implies #[trigger] entered_before(grown, o2, k) by {
        if k < order.len() {
            assert(o2[k] == order[k]);
            assert(entered_before(cells, order, k));
            let (j, i) = choose|j: int, i: int|
                0 <= j < k && is_entry(cells, order[j] as int, i)
                    && #[trigger] cells[order[j] as int].neighbours@[i] == order[k];
            assert(o2[j] == order[j]);
            let pj = order[j] as int;
            if pj != cur {
                assert(grown[pj].neighbours@ == cells[pj].neighbours@);
            }
            assert(grown[o2[j] as int].neighbours@[i] == o2[k]);
        } else {
            let j = choose|j: int| 0 <= j < order.len() && order[j] == cur as usize;
            assert(o2[j] == cur as usize);
            let i = cells[cur].neighbours@.len() as int;
            assert(grown[o2[j] as int].neighbours@[i] == o2[k]);
        }
    }
}

/// Clearing the wall between `cur` and a new cell `c` while recording the edge
/// from `cur` to `c` keeps walls and edges in step.
pub proof fn lemma_walls_grow(cells: Seq<Cell>, grown: Seq<Cell>, width: int, cur: int, c: usize)
    requires
        width >= 1,
        cells.len() == width * width,
        width * width <= usize::MAX,
        walls_match(cells, width),
        0 <= cur < cells.len(),
        is_step(width, cur, c as int),
        forall|p: int| 0 <= p < cells.len() ==> !(#[trigger] cells[p]).neighbours@.contains(c),
        cells[c as int].neighbours@.len() == 0,
        grown.len() == cells.len(),
        forall|p: int| 0 <= p < cells.len() && p != cur ==> (#[trigger] grown[p]).neighbours@ == cells[p].neighbours@,
        grown[cur].neighbours@ == cells[cur].neighbours@.push(c),
        forall|p: int| 0 <= p < cells.len() ==> {
            &&& (#[trigger] grown[p]).has_border_right == cleared(cells, width, cur, c as int)[p].has_border_right
            &&& grown[p].has_border_bottom == cleared(cells, width, cur, c as int)[p].has_border_bottom
        },
    ensures
        walls_match(grown, width),
{
    let ci = c as int;
    let n = cells.len();
    assert(width >= 2) by {
        if width == 1 {
            assert(n == 1);
        }
    }
    assert forall|a: int, b: int| 0 <= a < n implies
        (#[trigger] grown[a].neighbours@.contains(b as usize) <==> (cells[a].neighbours@.contains(b as usize) || (a == cur && b as usize == c))) by {
        if a == cur {
            let s0 = cells[cur].neighbours@;
            if grown[a].neighbours@.contains(b as usize) {
                let k = choose|k: int| 0 <= k < s0.push(c).len() && s0.push(c)[k] == b as usize;
                if k < s0.len() {
                    assert(s0[k] == b as usize);
                }
            }
            if s0.contains(b as usize) {
                let k = choose|k: int| 0 <= k < s0.len() && s0[k] == b as usize;
                assert(s0.push(c)[k] == b as usize);
            }
            if b as usize == c {
                assert(s0.push(c)[s0.len() as int] == c);
            }
        }
    }
    let cl = cleared(cells, width, cur, ci);
    assert(cl.len() == n);
    let rc = if ci - cur == 1 { cur } else if ci - cur == -1 { ci } else { -1 };
    let bc = if ci - cur == width { cur } else if ci - cur == -width { ci } else { -1 };
    assert forall|q: int| 0 <= q < n implies {
        &&& (#[trigger] cl[q]).has_border_right == (cells[q].has_border_right && q != rc)
        &&& cl[q].has_border_bottom == (cells[q].has_border_bottom && q != bc)
    } by {}
    if ci - cur == -1 {
        lemma_fundamental_div_mod(cur, width);
        lemma_fundamental_div_mod_converse(ci, width, cur / width, cur % width - 1);
    }
    assert forall|q: int| 0 <= q < n implies {
        &&& !(#[trigger] grown[q]).has_border_right <==> (q % width + 1 < width && linked(grown, q, q + 1))
        &&& !grown[q].has_border_bottom <==> (q + width < n && linked(grown, q, q + width))
    } by {
        assert(grown[q].neighbours@.contains((q + 1) as usize) <==> (cells[q].neighbours@.contains((q + 1) as usize) || (q == cur && (q + 1) as usize == c)));
        assert(grown[q].neighbours@.contains((q + width) as usize) <==> (cells[q].neighbours@.contains((q + width) as usize) || (q == cur && (q + width) as usize == c)));
        if q + 1 < n {
            assert(grown[q + 1].neighbours@.contains(q as usize) <==> (cells[q + 1].neighbours@.contains(q as usize) || (q + 1 == cur && q as usize == c)));
        }
        if q + width < n {
            assert(grown[q + width].neighbours@.contains(q as usize) <==> (cells[q + width].neighbours@.contains(q as usize) || (q + width == cur && q as usize == c)));
        }
        assert(!cells[q].has_border_right <==> (q % width + 1 < width && linked(cells, q, q + 1)));
        assert(!cells[q].has_border_bottom <==> (q + width < n && linked(cells, q, q + width)));
        assert(grown[q].has_border_right == cl[q].has_border_right);
        assert(grown[q].has_border_bottom == cl[q].has_border_bottom);
        assert(cl[q].has_border_right == (cells[q].has_border_right && q != rc));
        assert(cl[q].has_border_bottom == (cells[q].has_border_bottom && q != bc));
        assert(linked(grown, q, q + 1) <==> (linked(cells, q, q + 1) || q == rc));
        assert(linked(grown, q, q + width) <==> (linked(cells, q, q + width) || q == bc));
        if q == rc {
            assert(q % width + 1 < width);
        }
        if q == bc {
            assert(q + width < n);
        }
    }
}

/// A set of cells that holds the first cell and every grid neighbour of each of
/// its cells holds the whole grid.
pub proof fn lemma_closed_covers(width: int, s: Seq<usize>, i: int)
    requires
        width >= 1,
        s.contains(0),
        forall|v: int, c: int|
            0 <= v < width * width && s.contains(v as usize) && #[trigger] is_step(width, v, c)
                ==> s.contains(c as usize),
        0 <= i < width * width,
    ensures
        s.contains(i as usize),
    decreases i,
{
    if i > 0 {
        let q = i / width;
        let r = i % width;
        lemma_fundamental_div_mod(i, width);
        assert(i == q * width + r);
        assert(0 <= r < width);
        if r > 0 {
            lemma_fundamental_div_mod_converse(i - 1, width, q, r - 1);
            lemma_closed_covers(width, s, i - 1);
            assert(is_step(width, i - 1, i));
        } else {
            assert(q >= 1) by (nonlinear_arith)
                requires i == q * width + r, r == 0, i > 0, width >= 1;
            assert(i - width >= 0) by (nonlinear_arith)
                requires i == q * width, q >= 1, width >= 1;
            lemma_closed_covers(width, s, i - width);
            if width == 1 {
                assert(i < 1);
            }
            assert(is_step(width, i - width, i));
        }
    }
}

} // verus!
