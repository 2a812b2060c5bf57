//! The equality subgraph: agent `i` and task `j` are adjacent exactly when the
//! reduced cost of the pair is zero.
use vstd::prelude::*;
use crate::bipartite::{is_bipartite, is_two_coloring, UndirectedGraph};
use crate::matrix::{is_square_i64, MAX_DIM};

verus! {

/// A node of the bipartite graph, tagged with its side and its matrix index.
#[derive(Clone, Copy, Debug, PartialEq, Eq, Structural)]
pub enum Node {
    Agent(usize),
    Task(usize),
}

/// A bipartite graph between `n` agents and `n` tasks; `edge[i][j]` tells
/// whether agent `i` and task `j` are adjacent.
pub struct EqualityGraph {
    pub n: usize,
    pub edge: Vec<Vec<bool>>,
}

impl EqualityGraph {
    /// The adjacency table is `n` by `n`.
    pub open spec fn wf(&self) -> bool {
        &&& self.edge.len() == self.n
        &&& forall|i: int| 0 <= i < self.n ==> #[trigger] self.edge@[i]@.len() == self.n
    }

    /// Agent `i` and task `j` are adjacent.
    pub open spec fn has_edge(&self, i: int, j: int) -> bool {
        &&& 0 <= i < self.n
        &&& 0 <= j < self.n
        &&& self.edge@[i]@[j]
    }

    /// Whether agent `i` and task `j` are adjacent.
    pub fn adjacent(&self, i: usize, j: usize) -> (b: bool)
        requires
            self.wf(),
            i < self.n,
            j < self.n,
        ensures
            b == self.has_edge(i as int, j as int),
    {
        assert(self.edge@[i as int]@.len() == self.n);
        self.edge[i][j]
    }

    /// The edges `(agent, task)`, row by row and in ascending task order.
    pub fn edges(&self) -> (r: Vec<(usize, usize)>)
        requires
            self.wf(),
        ensures
            forall|k: int| 0 <= k < r.len() ==> self.has_edge(#[trigger] r@[k].0 as int, r@[k].1 as int),
            forall|i: int, j: int| #[trigger] self.has_edge(i, j) ==> r@.contains((i as usize, j as usize)),
    {
        let n = self.n;
        let mut r: Vec<(usize, usize)> = Vec::new();
        let mut i: usize = 0;
        while i < n
            invariant
                self.wf(),
                n == self.n,
                i <= n,
                forall|k: int| 0 <= k < r.len() ==> self.has_edge(#[trigger] r@[k].0 as int, r@[k].1 as int),
                forall|a: int, b: int| 0 <= a < i && #[trigger] self.has_edge(a, b) ==> r@.contains((a as usize, b as usize)),
            decreases n - i,
        {
            let mut j: usize = 0;
            while j < n
                invariant
                    self.wf(),
                    n == self.n,
                    i < n,
                    j <= n,
                    forall|k: int| 0 <= k < r.len() ==> self.has_edge(#[trigger] r@[k].0 as int, r@[k].1 as int),
                    forall|a: int, b: int| 0 <= a < i && #[trigger] self.has_edge(a, b) ==> r@.contains((a as usize, b as usize)),
                    forall|b: int| 0 <= b < j && #[trigger] self.has_edge(i as int, b) ==> r@.contains((i, b as usize)),
                decreases n - j,
            {
                if self.adjacent(i, j) {
                    let ghost old_r = r@;
                    r.push((i, j));
                    assert forall|a: int, b: int| #[trigger] old_r.contains((a as usize, b as usize)) implies r@.contains((a as usize, b as usize)) by {
                        let k = choose|k: int| 0 <= k < old_r.len() && old_r[k] == (a as usize, b as usize);
                        assert(r@[k] == old_r[k]);
                    }
                    assert(r@[r.len() - 1] == (i, j));
                }
                j += 1;
            }
            i += 1;
        }
        r
    }

    /// The same graph on the nodes `0..2n`: agent `i` is node `i`, task `j` is
    /// node `n + j`.
    pub fn to_undirected(&self) -> (r: UndirectedGraph)
        requires
            self.wf(),
            self.n <= MAX_DIM,
        ensures
            r.wf(),
            r.adj.len() == 2 * self.n,
            forall|a: int, b: int|
                #[trigger] r.has_edge(a, b) <==> (0 <= a < self.n && self.n <= b && self.has_edge(a, b - self.n)) || (0
                    <= b < self.n && self.n <= a && self.has_edge(b, a - self.n)),
    {
        let n = self.n;
        let mut adj: Vec<Vec<usize>> = Vec::new();
        let mut i: usize = 0;
        while i < n
            invariant
                self.wf(),
                n == self.n,
                n <= MAX_DIM,
                i <= n,
                adj.len() == i,
                forall|a: int, k: int|
                    0 <= a < i && 0 <= k < adj@[a]@.len() ==> n <= #[trigger] adj@[a]@[k] < 2 * n && self.has_edge(
                        a,
                        adj@[a]@[k] - n,
                    ),
                forall|a: int, j: int| 0 <= a < i && #[trigger] self.has_edge(a, j) ==> adj@[a]@.contains((n + j) as usize),
            decreases n - i,
        {
            let mut row: Vec<usize> = Vec::new();
            let mut j: usize = 0;
            while j < n
                invariant
                    self.wf(),
                    n == self.n,
                    n <= MAX_DIM,
                    i < n,
                    j <= n,
                    forall|k: int| 0 <= k < row.len() ==> n <= #[trigger] row@[k] < 2 * n && self.has_edge(i as int, row@[k] - n),
                    forall|b: int| 0 <= b < j && #[trigger] self.has_edge(i as int, b) ==> row@.contains((n + b) as usize),
                decreases n - j,
            {
                if self.adjacent(i, j) {
                    let ghost r0 = row@;
                    row.push(n + j);
                    proof {
                        assert(row@[row.len() - 1] == n + j);
                        assert forall|b: int| 0 <= b < j && #[trigger] self.has_edge(i as int, b) implies row@.contains((n + b) as usize) by {
                            let k = choose|k: int| 0 <= k < r0.len() && r0[k] == (n + b) as usize;
                            assert(row@[k] == r0[k]);
                        }
                    }
                }
                j += 1;
            }
            adj.push(row);
            i += 1;
        }
        let mut j: usize = 0;
        while j < n
            invariant
                self.wf(),
                n == self.n,
                n <= MAX_DIM,
                j <= n,
                adj.len() == n + j,
                forall|a: int, k: int|
                    0 <= a < n && 0 <= k < adj@[a]@.len() ==> n <= #[trigger] adj@[a]@[k] < 2 * n && self.has_edge(
                        a,
                        adj@[a]@[k] - n,
                    ),
                forall|a: int, b: int| 0 <= a < n && #[trigger] self.has_edge(a, b) ==> adj@[a]@.contains((n + b) as usize),
                forall|t: int, k: int|
                    n <= t < n + j && 0 <= k < adj@[t]@.len() ==> #[trigger] adj@[t]@[k] < n && self.has_edge(
                        adj@[t]@[k] as int,
                        t - n,
                    ),
                forall|a: int, t: int| n <= t < n + j && #[trigger] self.has_edge(a, t - n) ==> adj@[t]@.contains(a as usize),
            decreases n - j,
        {
            let mut row: Vec<usize> = Vec::new();
            let mut a: usize = 0;
            while a < n
                invariant
                    self.wf(),
                    n == self.n,
                    j < n,
                    a <= n,
                    forall|k: int| 0 <= k < row.len() ==> #[trigger] row@[k] < n && self.has_edge(row@[k] as int, j as int),
                    forall|b: int| 0 <= b < a && #[trigger] self.has_edge(b, j as int) ==> row@.contains(b as usize),
                decreases n - a,
            {
                if self.adjacent(a, j) {
                    let ghost r0 = row@;
                    row.push(a);
                    proof {
                        assert(row@[row.len() - 1] == a);
                        assert forall|b: int| 0 <= b < a && #[trigger] self.has_edge(b, j as int) implies row@.contains(b as usize) by {
                            let k = choose|k: int| 0 <= k < r0.len() && r0[k] == b as usize;
                            assert(row@[k] == r0[k]);
                        }
                    }
                }
                a += 1;
            }
            let ghost adj0 = adj@;
            adj.push(row);
            proof {
                assert forall|t: int, a: int| n <= t < n + j + 1 && #[trigger] self.has_edge(a, t - n) implies adj@[t]@.contains(a as usize) by {
                    if t < n + j {
                        assert(adj@[t] == adj0[t]);
                    }
                }
                assert forall|a: int, b: int| 0 <= a < n && #[trigger] self.has_edge(a, b) implies adj@[a]@.contains((n + b) as usize) by {
                    assert(adj@[a] == adj0[a]);
                }
            }
            j += 1;
        }
        let r = UndirectedGraph { adj };
        proof {
            assert forall|a: int, b: int|
                #[trigger] r.has_edge(a, b) <==> (0 <= a < n && n <= b && self.has_edge(a, b - n)) || (0 <= b < n && n <= a
                    && self.has_edge(b, a - n)) by {
                if r.has_edge(a, b) {
                    let k = choose|k: int| 0 <= k < r.adj@[a]@.len() && r.adj@[a]@[k] == b as usize;
                    if a < n {
                        assert(n <= r.adj@[a]@[k] < 2 * n);
                    } else {
                        assert(r.adj@[a]@[k] < n);
                    }
                }
                if 0 <= a < n && n <= b && self.has_edge(a, b - n) {
                    assert(r.adj@[a]@.contains((n + (b - n)) as usize));
                }
                if 0 <= b < n && n <= a && self.has_edge(b, a - n) {
                    assert(r.adj@[a]@.contains(b as usize));
                }
            }
            assert forall|a: int, k: int| 0 <= a < 2 * n && 0 <= k < r.adj@[a]@.len() implies #[trigger] r.adj@[a]@[k] < 2 * n by {
            }
            assert forall|a: int, b: int|
                0 <= a < 2 * n && 0 <= b < 2 * n && #[trigger] r.adj@[a]@.contains(b as usize) implies r.adj@[b]@.contains(a as usize) by {
                assert(r.has_edge(a, b));
                assert(r.has_edge(b, a));
            }
        }
        r
    }
}

/// The undirected view of an equality subgraph is bipartite: agents on one
/// side, tasks on the other.
pub proof fn lemma_equality_graph_bipartite(g: EqualityGraph, r: UndirectedGraph)
    requires
        r.adj.len() == 2 * g.n,
        forall|a: int, b: int|
            #[trigger] r.has_edge(a, b) <==> (0 <= a < g.n && g.n <= b && g.has_edge(a, b - g.n)) || (0 <= b < g.n && g.n
                <= a && g.has_edge(b, a - g.n)),
    ensures
        is_bipartite(r),
{
    let col = Seq::new((2 * g.n) as nat, |x: int| x >= g.n);
    assert(is_two_coloring(r, col));
}

/// Builds the equality subgraph of a reduced-cost matrix: an edge wherever the
/// reduced cost is zero.
pub fn generate_equality_graph(r: &Vec<Vec<i64>>) -> (g: EqualityGraph)
    requires
        is_square_i64(r@, r.len() as int),
    ensures
        g.wf(),
        g.n == r.len(),
        forall|i: int, j: int|
            0 <= i < r.len() && 0 <= j < r.len() ==> (#[trigger] g.has_edge(i, j) <==> r@[i]@[j] == 0),
{
    let n = r.len();
    let mut edge: Vec<Vec<bool>> = Vec::new();
    let mut i: usize = 0;
    while i < n
        invariant
            n == r.len(),
            is_square_i64(r@, n as int),
            i <= n,
            edge.len() == i,
            forall|k: int| 0 <= k < i ==> #[trigger] edge@[k]@.len() == n,
            forall|k: int, j: int| 0 <= k < i && 0 <= j < n ==> (#[trigger] edge@[k]@[j] <==> r@[k]@[j] == 0),
        decreases n - i,
    {
        assert(r@[i as int]@.len() == n);
        let mut row: Vec<bool> = Vec::new();
        let mut j: usize = 0;
        while j < n
            invariant
                n == r.len(),
                is_square_i64(r@, n as int),
                i < n,
                j <= n,
                row.len() == j,
                forall|l: int| 0 <= l < j ==> (#[trigger] row@[l] <==> r@[i as int]@[l] == 0),
            decreases n - j,
        {
            assert(r@[i as int]@.len() == n);
            row.push(r[i][j] == 0);
            j += 1;
        }
        edge.push(row);
        i += 1;
    }
    EqualityGraph { n, edge }
}

} // verus!
