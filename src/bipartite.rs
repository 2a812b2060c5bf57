//! Bipartite partitioning of an undirected graph by breadth-first 2-coloring.
use vstd::prelude::*;
use crate::sums::{count_true, lemma_count_true_bounds, lemma_count_true_update};

verus! {

/// An undirected graph on the nodes `0..adj.len()`, as symmetric adjacency lists.
pub struct UndirectedGraph {
    pub adj: Vec<Vec<usize>>,
}

impl UndirectedGraph {
    /// Neighbors are nodes, and `b` lists `a` whenever `a` lists `b`.
    pub open spec fn wf(&self) -> bool {
        let n = self.adj.len() as int;
        &&& forall|a: int, k: int|
            0 <= a < n && 0 <= k < self.adj@[a]@.len() ==> #[trigger] self.adj@[a]@[k] < n
        &&& forall|a: int, b: int|
            0 <= a < n && 0 <= b < n && #[trigger] self.adj@[a]@.contains(b as usize) ==> self.adj@[b]@.contains(
                a as usize,
            )
    }

    /// Nodes `a` and `b` are adjacent.
    pub open spec fn has_edge(&self, a: int, b: int) -> bool {
        &&& 0 <= a < self.adj.len()
        &&& 0 <= b < self.adj.len()
        &&& self.adj@[a]@.contains(b as usize)
    }
}

/// `col` gives the two ends of every edge different colors.
pub open spec fn is_two_coloring(g: UndirectedGraph, col: Seq<bool>) -> bool {
    &&& col.len() == g.adj.len()
    &&& forall|a: int, b: int| #[trigger] g.has_edge(a, b) ==> col[a] != col[b]
}

/// Some 2-coloring exists.
pub open spec fn is_bipartite(g: UndirectedGraph) -> bool {
    exists|col: Seq<bool>| is_two_coloring(g, col)
}

/// In every 2-coloring, node `x` has the color of `root[x]` exactly when
/// `side[x]` is false.
pub open spec fn is_forced(g: UndirectedGraph, side: Seq<bool>, root: Seq<int>, x: int) -> bool {
    forall|col: Seq<bool>| #[trigger] is_two_coloring(g, col) ==> col[x] == (col[root[x]] != side[x])
}

/// The edge from `x` to its `k`-th neighbor is properly colored and stays in
/// one tree.
pub open spec fn edge_settled(g: UndirectedGraph, seen: Seq<bool>, side: Seq<bool>, root: Seq<int>, x: int, k: int) -> bool {
    let y = g.adj@[x]@[k] as int;
    &&& seen[y]
    &&& side[y] != side[x]
    &&& root[y] == root[x]
}

/// Colors each connected component breadth first from its smallest node;
/// `None` when an edge joins two nodes of one color, in which case no 2-coloring
/// exists.
pub fn two_coloring(g: &UndirectedGraph) -> (res: Option<Vec<bool>>)
    requires
        g.wf(),
    ensures
        res is None <==> !is_bipartite(*g),
        res matches Some(col) ==> is_two_coloring(*g, col@),
{
    let n = g.adj.len();
    let mut seen: Vec<bool> = Vec::new();
    let mut side: Vec<bool> = Vec::new();
    let mut k: usize = 0;
    while k < n
        invariant
            k <= n,
            seen.len() == k,
            side.len() == k,
            forall|l: int| 0 <= l < k ==> !#[trigger] seen@[l],
        decreases n - k,
    {
        seen.push(false);
        side.push(false);
        k += 1;
    }
    let ghost mut root: Seq<int> = Seq::new(n as nat, |l: int| 0int);
    let ghost mut done: Seq<bool> = Seq::new(n as nat, |l: int| false);
    let mut r: usize = 0;
    while r < n
        invariant
            g.wf(),
            n == g.adj.len(),
            seen.len() == n,
            side.len() == n,
            root.len() == n,
            done.len() == n,
            r <= n,
            forall|x: int| 0 <= x < r ==> #[trigger] seen@[x],
            forall|x: int| 0 <= x < n && #[trigger] seen@[x] ==> 0 <= root[x] < r && is_forced(*g, side@, root, x) && done[x],
            forall|x: int, k: int|
                0 <= x < n && done[x] && 0 <= k < g.adj@[x]@.len() ==> #[trigger] edge_settled(*g, seen@, side@, root, x, k),
            forall|x: int| 0 <= x < n && #[trigger] done[x] ==> seen@[x],
        decreases n - r,
    {
        if !seen[r] {
            let ghost side0 = side@;
            let ghost root0 = root;
            let ghost seen0 = seen@;
            seen.set(r, true);
            side.set(r, false);
            proof {
                root = root.update(r as int, r as int);
                assert forall|x: int| 0 <= x < n && #[trigger] seen@[x] implies is_forced(*g, side@, root, x) by {
                    if x != r {
                        assert(seen0[x]);
                        assert(is_forced(*g, side0, root0, x));
                        assert forall|col: Seq<bool>| #[trigger] is_two_coloring(*g, col) implies col[x] == (col[root[x]] != side@[x]) by {
                            assert(col[x] == (col[root0[x]] != side0[x]));
                        }
                    }
                }
                assert forall|x: int, k: int|
                    0 <= x < n && done[x] && 0 <= k < g.adj@[x]@.len() implies #[trigger] edge_settled(*g, seen@, side@, root, x, k) by {
                    assert(edge_settled(*g, seen0, side0, root0, x, k));
                    let y = g.adj@[x]@[k] as int;
                    assert(y != r);
                }
            }
            let mut queue: Vec<usize> = Vec::new();
            queue.push(r);
            let mut head: usize = 0;
            assert forall|x: int|
                0 <= x < n && #[trigger] seen@[x] && !done[x] implies exists|q: int| head <= q < queue.len() && #[trigger] queue@[q] == x by {
                if x != r {
                    assert(seen0[x]);
                }
                assert(queue@[0] == r);
            }
            while head < queue.len()
                invariant
                    g.wf(),
                    n == g.adj.len(),
                    seen.len() == n,
                    side.len() == n,
                    root.len() == n,
                    done.len() == n,
                    r < n,
                    forall|x: int| 0 <= x <= r ==> #[trigger] seen@[x],
                    forall|x: int| 0 <= x < n && #[trigger] seen@[x] ==> 0 <= root[x] <= r && is_forced(*g, side@, root, x),
                    forall|x: int| 0 <= x < n && #[trigger] seen@[x] && root[x] < r ==> done[x],
                    forall|x: int, k: int|
                        0 <= x < n && done[x] && 0 <= k < g.adj@[x]@.len() ==> #[trigger] edge_settled(*g, seen@, side@, root, x, k),
                    forall|x: int| 0 <= x < n && #[trigger] done[x] ==> seen@[x],
                    forall|q: int| 0 <= q < queue.len() ==> #[trigger] queue@[q] < n && seen@[queue@[q] as int] && root[queue@[q] as int] == r,
                    head <= queue.len(),
                    forall|x: int|
                        0 <= x < n && #[trigger] seen@[x] && !done[x] ==> exists|q: int| head <= q < queue.len() && #[trigger] queue@[q] == x,
                decreases n - count_true(seen@), queue.len() - head,
            {
                proof {
                    lemma_count_true_bounds(seen@);
                }
                let x = queue[head];
                head += 1;
                let ghost seen_start = count_true(seen@);
                let ghost len_start = queue.len();
                let mut k: usize = 0;
                while k < g.adj[x].len()
                    invariant
                        g.wf(),
                        n == g.adj.len(),
                        seen.len() == n,
                        side.len() == n,
                        root.len() == n,
                        done.len() == n,
                        r < n,
                        x < n,
                        seen@[x as int],
                        root[x as int] == r,
                        forall|z: int| 0 <= z <= r ==> #[trigger] seen@[z],
                        forall|z: int| 0 <= z < n && #[trigger] seen@[z] ==> 0 <= root[z] <= r && is_forced(*g, side@, root, z),
                        forall|z: int| 0 <= z < n && #[trigger] seen@[z] && root[z] < r ==> done[z],
                        forall|z: int, l: int|
                            0 <= z < n && done[z] && 0 <= l < g.adj@[z]@.len() ==> #[trigger] edge_settled(*g, seen@, side@, root, z, l),
                        forall|l: int| 0 <= l < k ==> #[trigger] edge_settled(*g, seen@, side@, root, x as int, l),
                        forall|z: int| 0 <= z < n && #[trigger] done[z] ==> seen@[z],
                        forall|q: int| 0 <= q < queue.len() ==> #[trigger] queue@[q] < n && seen@[queue@[q] as int] && root[queue@[q] as int] == r,
                        1 <= head <= queue.len(),
                        queue@[head - 1] == x,
                        forall|z: int|
                            0 <= z < n && #[trigger] seen@[z] && !done[z] ==> exists|q: int| head - 1 <= q < queue.len() && #[trigger] queue@[q] == z,
                        k <= g.adj@[x as int]@.len(),
                        count_true(seen@) >= seen_start,
                        count_true(seen@) == seen_start ==> queue.len() == len_start,
                        queue.len() >= len_start,
                    decreases g.adj@[x as int]@.len() - k,
                {
                    let y = g.adj[x][k];
                    assert(y < n);
                    assert(g.has_edge(x as int, y as int)) by {
                        assert(g.adj@[x as int]@[k as int] == y);
                    }
                    if seen[y] {
                        proof {
                            if root[y as int] < r {
                                assert(done[y as int]);
                                assert(g.adj@[y as int]@.contains(x)) by {
                                    assert(g.adj@[x as int]@.contains(y));
                                }
                                let l = choose|l: int| 0 <= l < g.adj@[y as int]@.len() && g.adj@[y as int]@[l] == x;
                                assert(edge_settled(*g, seen@, side@, root, y as int, l));
                            }
                        }
                    }
                    if !seen[y] {
                        let ghost side0 = side@;
                        let ghost root0 = root;
                        let ghost seen0 = seen@;
                        let ghost q0 = queue@;
                        proof {
                            lemma_count_true_update(seen@, y as int, true);
                        }
                        seen.set(y, true);
                        side.set(y, !side[x]);
                        queue.push(y);
                        proof {
                            root = root.update(y as int, r as int);
                            assert forall|z: int| 0 <= z < n && #[trigger] seen@[z] implies is_forced(*g, side@, root, z) by {
                                if z != y {
                                    assert(seen0[z]);
                                    assert(is_forced(*g, side0, root0, z));
                                    assert forall|col: Seq<bool>| #[trigger] is_two_coloring(*g, col) implies col[z] == (col[root[z]] != side@[z]) by {
                                        assert(col[z] == (col[root0[z]] != side0[z]));
                                    }
                                } else {
                                    assert(is_forced(*g, side0, root0, x as int));
                                    assert forall|col: Seq<bool>| #[trigger] is_two_coloring(*g, col) implies col[z] == (col[root[z]] != side@[z]) by {
                                        assert(col[x as int] == (col[root0[x as int]] != side0[x as int]));
                                        assert(col[x as int] != col[y as int]);
                                    }
                                }
                            }
                            assert forall|z: int, l: int|
                                0 <= z < n && done[z] && 0 <= l < g.adj@[z]@.len() implies #[trigger] edge_settled(*g, seen@, side@, root, z, l) by {
                                assert(edge_settled(*g, seen0, side0, root0, z, l));
                            }
                            assert forall|l: int| 0 <= l < k + 1 implies #[trigger] edge_settled(*g, seen@, side@, root, x as int, l) by {
                                if l < k {
                                    assert(edge_settled(*g, seen0, side0, root0, x as int, l));
                                }
                            }
                            assert forall|z: int|
                                0 <= z < n && #[trigger] seen@[z] && !done[z] implies exists|q: int| head - 1 <= q < queue.len() && #[trigger] queue@[q] == z by {
                                if z == y {
                                    assert(queue@[queue.len() - 1] == y);
                                } else {
                                    assert(seen0[z]);
                                    let q = choose|q: int| head - 1 <= q < q0.len() && #[trigger] q0[q] == z;
                                    assert(queue@[q] == z);
                                }
                            }
                        }
                    } else if side[y] == side[x] {
                        proof {
                            assert(is_forced(*g, side@, root, x as int));
                            assert(is_forced(*g, side@, root, y as int));
                            assert forall|col: Seq<bool>| !is_two_coloring(*g, col) by {
                                if is_two_coloring(*g, col) {
                                    assert(col[x as int] != col[y as int]);
                                }
                            }
                        }
                        return None;
                    }
                    k += 1;
                }
                proof {
                    done = done.update(x as int, true);
                    assert forall|z: int, l: int|
                        0 <= z < n && done[z] && 0 <= l < g.adj@[z]@.len() implies #[trigger] edge_settled(*g, seen@, side@, root, z, l) by {
                    }
                    assert forall|z: int|
                        0 <= z < n && #[trigger] seen@[z] && !done[z] implies exists|q: int| head <= q < queue.len() && #[trigger] queue@[q] == z by {
                        let q = choose|q: int| head - 1 <= q < queue.len() && #[trigger] queue@[q] == z;
                        assert(q != head - 1);
                    }
                    lemma_count_true_bounds(seen@);
                }
            }
            proof {
                assert forall|x: int| 0 <= x < n && #[trigger] seen@[x] implies done[x] by {
                    if !done[x] {
                        let q = choose|q: int| head <= q < queue.len() && #[trigger] queue@[q] == x;
                    }
                }
            }
        }
        r += 1;
    }
    proof {
        assert forall|a: int, b: int| #[trigger] g.has_edge(a, b) implies side@[a] != side@[b] by {
            assert(seen@[a]);
            let l = choose|l: int| 0 <= l < g.adj@[a]@.len() && g.adj@[a]@[l] == b as usize;
            assert(edge_settled(*g, seen@, side@, root, a, l));
        }
        assert(is_two_coloring(*g, side@));
    }
    Some(side)
}

/// The two node sets of a bipartite graph.
pub struct BipartiteGraph {
    pub nodes_u: Vec<usize>,
    pub nodes_v: Vec<usize>,
}

/// Strictly ascending.
pub open spec fn is_ascending(s: Seq<usize>) -> bool {
    forall|k1: int, k2: int| 0 <= k1 < k2 < s.len() ==> #[trigger] s[k1] < #[trigger] s[k2]
}

/// `us` and `vs` split the nodes, each in ascending order, and every edge joins
/// the two sets.
pub open spec fn is_bipartition(g: UndirectedGraph, us: Seq<usize>, vs: Seq<usize>) -> bool {
    let n = g.adj.len() as int;
    &&& is_ascending(us)
    &&& is_ascending(vs)
    &&& forall|k: int| 0 <= k < us.len() ==> #[trigger] us[k] < n
    &&& forall|k: int| 0 <= k < vs.len() ==> #[trigger] vs[k] < n
    &&& forall|a: int| 0 <= a < n ==> #[trigger] us.contains(a as usize) != vs.contains(a as usize)
    &&& forall|a: int, b: int| #[trigger] g.has_edge(a, b) ==> us.contains(a as usize) != us.contains(b as usize)
}

/// Splits the nodes into the two color classes of a 2-coloring: `None` exactly
/// when the graph is not bipartite.
pub fn bipartite_undirected(g: &UndirectedGraph) -> (res: Option<BipartiteGraph>)
    requires
        g.wf(),
    ensures
        res is Some <==> is_bipartite(*g),
        res matches Some(p) ==> is_bipartition(*g, p.nodes_u@, p.nodes_v@),
{
    let side = match two_coloring(g) {
        None => {
            return None;
        },
        Some(side) => side,
    };
    let n = g.adj.len();
    let mut nodes_u: Vec<usize> = Vec::new();
    let mut nodes_v: Vec<usize> = Vec::new();
    let mut a: usize = 0;
    while a < n
        invariant
            n == g.adj.len(),
            side.len() == n,
            a <= n,
            is_ascending(nodes_u@),
            is_ascending(nodes_v@),
            forall|k: int| 0 <= k < nodes_u.len() ==> #[trigger] nodes_u@[k] < a && !side@[nodes_u@[k] as int],
            forall|k: int| 0 <= k < nodes_v.len() ==> #[trigger] nodes_v@[k] < a && side@[nodes_v@[k] as int],
            forall|x: int| 0 <= x < a && !#[trigger] side@[x] ==> nodes_u@.contains(x as usize),
            forall|x: int| 0 <= x < a && #[trigger] side@[x] ==> nodes_v@.contains(x as usize),
        decreases n - a,
    {
        let ghost u0 = nodes_u@;
        let ghost v0 = nodes_v@;
        if side[a] {
            nodes_v.push(a);
            proof {
                assert(nodes_v@[nodes_v.len() - 1] == a);
                assert forall|x: int| 0 <= x < a + 1 && #[trigger] side@[x] implies nodes_v@.contains(x as usize) by {
                    if x < a {
                        let k = choose|k: int| 0 <= k < v0.len() && v0[k] == x as usize;
                        assert(nodes_v@[k] == v0[k]);
                    }
                }
            }
        } else {
            nodes_u.push(a);
            proof {
                assert(nodes_u@[nodes_u.len() - 1] == a);
                assert forall|x: int| 0 <= x < a + 1 && !#[trigger] side@[x] implies nodes_u@.contains(x as usize) by {
                    if x < a {
                        let k = choose|k: int| 0 <= k < u0.len() && u0[k] == x as usize;
                        assert(nodes_u@[k] == u0[k]);
                    }
                }
            }
        }
        a += 1;
    }
    proof {
        assert forall|x: int| 0 <= x < n implies #[trigger] nodes_u@.contains(x as usize) != nodes_v@.contains(x as usize) by {
            if side@[x] {
                assert(nodes_v@.contains(x as usize));
                if nodes_u@.contains(x as usize) {
                    let k = choose|k: int| 0 <= k < nodes_u.len() && nodes_u@[k] == x as usize;
                }
            } else {
                assert(nodes_u@.contains(x as usize));
                if nodes_v@.contains(x as usize) {
                    let k = choose|k: int| 0 <= k < nodes_v.len() && nodes_v@[k] == x as usize;
                }
            }
        }
        assert forall|x: int, y: int| #[trigger] g.has_edge(x, y) implies nodes_u@.contains(x as usize) != nodes_u@.contains(y as usize) by {
            assert(side@[x] != side@[y]);
            if nodes_u@.contains(x as usize) {
                let k = choose|k: int| 0 <= k < nodes_u.len() && nodes_u@[k] == x as usize;
            }
            if nodes_u@.contains(y as usize) {
                let k = choose|k: int| 0 <= k < nodes_u.len() && nodes_u@[k] == y as usize;
            }
        }
    }
    Some(BipartiteGraph { nodes_u, nodes_v })
}

/// Whether the graph is bipartite.
pub fn is_bipartite_undirected(g: &UndirectedGraph) -> (b: bool)
    requires
        g.wf(),
    ensures
        b == is_bipartite(*g),
{
    two_coloring(g).is_some()
}

} // verus!
