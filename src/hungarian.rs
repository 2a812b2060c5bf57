//! Hungarian tree search: grows alternating trees over the equality subgraph,
//! augments the matching along parent pointers, and when no augmenting path is
//! left returns the matching together with a minimum vertex cover.
use vstd::prelude::*;
use crate::equality::{EqualityGraph, Node};
use vstd::relations::injective_on;
use vstd::seq_lib::seq_to_set_is_finite;
use vstd::set_lib::{lemma_int_range, lemma_len_subset, lemma_map_size, set_int_range};
use crate::sums::{
    count_true, lemma_count_complement, lemma_count_true_bounds, lemma_count_true_take,
    lemma_count_true_update, lemma_sum_bounds,
};

verus! {

/// `row_mate[i]` is the task matched to agent `i`, `col_mate[j]` the agent
/// matched to task `j`; the two agree and every matched pair is an edge.
pub open spec fn is_matching(g: EqualityGraph, row_mate: Seq<Option<usize>>, col_mate: Seq<Option<usize>>) -> bool {
    &&& row_mate.len() == g.n
    &&& col_mate.len() == g.n
    &&& forall|i: int|
        0 <= i < g.n && (#[trigger] row_mate[i]) is Some ==> {
            let j = row_mate[i]->0;
            &&& j < g.n
            &&& col_mate[j as int] == Some(i as usize)
            &&& g.has_edge(i, j as int)
        }
    &&& forall|j: int|
        0 <= j < g.n && (#[trigger] col_mate[j]) is Some ==> {
            let i = col_mate[j]->0;
            &&& i < g.n
            &&& row_mate[i as int] == Some(j as usize)
        }
}

/// Which agents are matched.
pub open spec fn matched_flags(row_mate: Seq<Option<usize>>) -> Seq<bool> {
    row_mate.map_values(|o: Option<usize>| o is Some)
}

/// Which agents are exposed (unmatched).
pub open spec fn exposed_flags(row_mate: Seq<Option<usize>>) -> Seq<bool> {
    row_mate.map_values(|o: Option<usize>| o is None)
}

/// Number of matched pairs.
pub open spec fn matching_size(row_mate: Seq<Option<usize>>) -> int {
    count_true(matched_flags(row_mate))
}

/// The coloring of one growth phase: blue agents and red tasks reached by
/// alternating trees, the agent from which each red task was reached, and
/// the depth of each blue agent in its tree.
pub struct Forest {
    pub blue: Vec<bool>,
    pub red: Vec<bool>,
    pub parent: Vec<usize>,
    pub depth: Ghost<Seq<int>>,
}

/// The forest is made of alternating trees of the matching: a red task was
/// reached from a blue parent along an edge and its mate is blue one level
/// deeper; a blue agent is a root (exposed, depth 0) or the mate of a red task.
pub open spec fn forest_parts_ok(
    g: EqualityGraph,
    row_mate: Seq<Option<usize>>,
    col_mate: Seq<Option<usize>>,
    blue: Seq<bool>,
    red: Seq<bool>,
    parent: Seq<usize>,
    depth: Seq<int>,
) -> bool {
    let n = g.n as int;
    &&& blue.len() == n
    &&& red.len() == n
    &&& parent.len() == n
    &&& depth.len() == n
    &&& forall|j: int|
        0 <= j < n && #[trigger] red[j] ==> {
            &&& col_mate[j] is Some
            &&& parent[j] < n
            &&& blue[parent[j] as int]
            &&& g.has_edge(parent[j] as int, j)
            &&& blue[col_mate[j]->0 as int]
            &&& depth[col_mate[j]->0 as int] == depth[parent[j] as int] + 1
        }
    &&& forall|i: int|
        0 <= i < n && #[trigger] blue[i] ==> {
            &&& depth[i] >= 0
            &&& (row_mate[i] is None && depth[i] == 0) || (row_mate[i] is Some && red[row_mate[i]->0 as int])
        }
}

/// [`forest_parts_ok`] of the forest's parts.
pub open spec fn forest_ok(g: EqualityGraph, row_mate: Seq<Option<usize>>, col_mate: Seq<Option<usize>>, f: Forest) -> bool {
    forest_parts_ok(g, row_mate, col_mate, f.blue@, f.red@, f.parent@, f.depth@)
}

/// A finished phase: every edge from a blue agent ends at a red task, every
/// exposed agent is blue, and the blue agents outnumber the red tasks by the
/// number of exposed agents.
pub open spec fn forest_is_cover(g: EqualityGraph, row_mate: Seq<Option<usize>>, f: Forest) -> bool {
    let n = g.n as int;
    &&& forall|i: int, j: int| 0 <= i < n && 0 <= j < n && f.blue@[i] && #[trigger] g.has_edge(i, j) ==> f.red@[j]
    &&& forall|i: int| 0 <= i < n && (#[trigger] row_mate[i]) is None ==> f.blue@[i]
    &&& count_true(f.blue@) == count_true(f.red@) + (n - matching_size(row_mate))
}

/// Flips the matching along the alternating path that ends with the edge from
/// blue agent `s` to exposed task `w`: the matching grows by one pair.
fn augment(
    g: &EqualityGraph,
    row_mate: &mut Vec<Option<usize>>,
    col_mate: &mut Vec<Option<usize>>,
    f: &Forest,
    s: usize,
    w: usize,
)
    requires
        g.wf(),
        is_matching(*g, old(row_mate)@, old(col_mate)@),
        forest_ok(*g, old(row_mate)@, old(col_mate)@, *f),
        s < g.n,
        w < g.n,
        f.blue@[s as int],
        g.has_edge(s as int, w as int),
        old(col_mate)@[w as int] is None,
    ensures
        is_matching(*g, final(row_mate)@, final(col_mate)@),
        matching_size(final(row_mate)@) == matching_size(old(row_mate)@) + 1,
{
    let n = g.n;
    let ghost rm0 = row_mate@;
    let ghost cm0 = col_mate@;
    let ghost depth = f.depth@;
    let mut a = s;
    let mut t = w;
    loop
        invariant
            g.wf(),
            n == g.n,
            is_matching(*g, rm0, cm0),
            forest_ok(*g, rm0, cm0, *f),
            rm0 == old(row_mate)@,
            depth == f.depth@,
            row_mate.len() == n,
            col_mate.len() == n,
            a < n,
            t < n,
            f.blue@[a as int],
            g.has_edge(a as int, t as int),
            row_mate@[a as int] == rm0[a as int],
            forall|i: int|
                0 <= i < n && #[trigger] row_mate@[i] != rm0[i] ==> f.blue@[i] && depth[i] > depth[a as int],
            forall|i: int|
                0 <= i < n && (#[trigger] row_mate@[i]) is Some ==> {
                    let j = row_mate@[i]->0;
                    &&& j < n
                    &&& col_mate@[j as int] == Some(i as usize)
                    &&& g.has_edge(i, j as int)
                },
            forall|j: int|
                0 <= j < n && j != t && (#[trigger] col_mate@[j]) is Some ==> {
                    let i = col_mate@[j]->0;
                    &&& i < n
                    &&& row_mate@[i as int] == Some(j as usize)
                },
            forall|i: int| 0 <= i < n ==> #[trigger] row_mate@[i] != Some(t),
            matching_size(row_mate@) == matching_size(rm0),
        decreases depth[a as int],
    {
        let prev = row_mate[a];
        let ghost before = row_mate@;
        row_mate.set(a, Some(t));
        col_mate.set(t, Some(a));
        proof {
            assert(matched_flags(row_mate@) =~= matched_flags(before).update(a as int, true));
            lemma_count_true_update(matched_flags(before), a as int, true);
        }
        match prev {
            None => {
                assert(!matched_flags(before)[a as int]);
                assert(matching_size(row_mate@) == matching_size(rm0) + 1);
                assert(is_matching(*g, row_mate@, col_mate@));
                return;
            },
            Some(t2) => {
                assert(cm0[t2 as int] == Some(a));
                assert(f.red@[t2 as int]);
                let a2 = f.parent[t2];
                assert(depth[a2 as int] < depth[a as int]);
                a = a2;
                t = t2;
            },
        }
    }
}

/// One growth phase: from each uncolored exposed agent, in ascending order, grows
/// an alternating tree breadth first, visiting neighbors in ascending order.
/// Stops at the first edge from a blue agent to an exposed task, and returns it;
/// otherwise returns the finished coloring.
fn grow_forest(g: &EqualityGraph, row_mate: &Vec<Option<usize>>, col_mate: &Vec<Option<usize>>) -> (res: (
    Forest,
    Option<(usize, usize)>,
))
    requires
        g.wf(),
        is_matching(*g, row_mate@, col_mate@),
    ensures
        forest_ok(*g, row_mate@, col_mate@, res.0),
        match res.1 {
            Some((s, w)) => {
                &&& s < g.n
                &&& w < g.n
                &&& res.0.blue@[s as int]
                &&& g.has_edge(s as int, w as int)
                &&& col_mate@[w as int] is None
            },
            None => forest_is_cover(*g, row_mate@, res.0),
        },
{
    let n = g.n;
    let mut blue: Vec<bool> = Vec::new();
    let mut red: Vec<bool> = Vec::new();
    let mut parent: Vec<usize> = Vec::new();
    let mut k: usize = 0;
    while k < n
        invariant
            k <= n,
            blue.len() == k,
            red.len() == k,
            parent.len() == k,
            forall|l: int| 0 <= l < k ==> !(#[trigger] blue@[l]),
            forall|l: int| 0 <= l < k ==> !(#[trigger] red@[l]),
        decreases n - k,
    {
        blue.push(false);
        red.push(false);
        parent.push(0);
        k += 1;
    }
    let ghost mut depth: Seq<int> = Seq::new(n as nat, |l: int| 0int);
    let ghost mut roots: int = 0;
    let ghost exposed = exposed_flags(row_mate@);
    proof {
        let z = |l: int| if blue@[l] { 1int } else { 0int };
        lemma_sum_bounds(z, n as int, 0, 0);
        let zr = |l: int| if red@[l] { 1int } else { 0int };
        lemma_sum_bounds(zr, n as int, 0, 0);
        let ze = exposed.take(0);
        assert(count_true(ze) == 0);
    }
    let mut r: usize = 0;
    while r < n
        invariant
            g.wf(),
            n == g.n,
            is_matching(*g, row_mate@, col_mate@),
            exposed == exposed_flags(row_mate@),
            forest_parts_ok(*g, row_mate@, col_mate@, blue@, red@, parent@, depth),
            r <= n,
            forall|i: int| 0 <= i < r && (#[trigger] row_mate@[i]) is None ==> blue@[i],
            forall|i: int| r <= i < n && #[trigger] blue@[i] ==> row_mate@[i] is Some,
            forall|i: int, j: int|
                0 <= i < n && 0 <= j < n && blue@[i] && #[trigger] g.has_edge(i, j) ==> red@[j],
            count_true(blue@) == count_true(red@) + roots,
            roots == count_true(exposed.take(r as int)),
        decreases n - r,
    {
        proof {
            lemma_count_true_take(exposed, r as int);
        }
        if row_mate[r].is_none() {
            proof {
                lemma_count_true_update(blue@, r as int, true);
            }
            blue.set(r, true);
            proof {
                depth = depth.update(r as int, 0);
                roots = roots + 1;
            }
            let mut queue: Vec<usize> = Vec::new();
            queue.push(r);
            let mut head: usize = 0;
            assert forall|i: int, j: int|
                0 <= i < n && 0 <= j < n && blue@[i] && #[trigger] g.has_edge(i, j) && !red@[j] implies exists|q: int|
                    head <= q < queue.len() && #[trigger] queue@[q] == i by {
                assert(queue@[0] == r);
            }
            while head < queue.len()
                invariant
                    g.wf(),
                    n == g.n,
                    is_matching(*g, row_mate@, col_mate@),
                    exposed == exposed_flags(row_mate@),
                    forest_parts_ok(*g, row_mate@, col_mate@, blue@, red@, parent@, depth),
                    r < n,
                    row_mate@[r as int] is None,
                    blue@[r as int],
                    forall|i: int| 0 <= i < r && (#[trigger] row_mate@[i]) is None ==> blue@[i],
                    forall|i: int| r < i < n && #[trigger] blue@[i] ==> row_mate@[i] is Some,
                    head <= queue.len(),
                    forall|q: int| 0 <= q < queue.len() ==> #[trigger] queue@[q] < n && blue@[queue@[q] as int],
                    forall|i: int, j: int|
                        0 <= i < n && 0 <= j < n && blue@[i] && #[trigger] g.has_edge(i, j) && !red@[j] ==> exists|q: int|
                            head <= q < queue.len() && #[trigger] queue@[q] == i,
                    count_true(blue@) == count_true(red@) + roots,
                    roots == count_true(exposed.take(r + 1)),
                decreases n - count_true(blue@), queue.len() - head,
            {
                proof {
                    lemma_count_true_bounds(blue@);
                }
                let s = queue[head];
                head += 1;
                let ghost blue0 = count_true(blue@);
                let ghost len0 = queue.len();
                assert forall|i: int, jj: int|
                    0 <= i < n && 0 <= jj < n && blue@[i] && #[trigger] g.has_edge(i, jj) && !red@[jj] implies (exists|q: int|
                        head <= q < queue.len() && #[trigger] queue@[q] == i) || (i == s && jj >= 0) by {
                    if i != s {
                        let q = choose|q: int| head - 1 <= q < queue.len() && #[trigger] queue@[q] == i;
                        assert(q != head - 1);
                    }
                }
                let mut j: usize = 0;
                while j < n
                    invariant
                        g.wf(),
                        n == g.n,
                        is_matching(*g, row_mate@, col_mate@),
                        exposed == exposed_flags(row_mate@),
                        forest_parts_ok(*g, row_mate@, col_mate@, blue@, red@, parent@, depth),
                        r < n,
                        row_mate@[r as int] is None,
                        blue@[r as int],
                        forall|i: int| 0 <= i < r && (#[trigger] row_mate@[i]) is None ==> blue@[i],
                        forall|i: int| r < i < n && #[trigger] blue@[i] ==> row_mate@[i] is Some,
                        s < n,
                        blue@[s as int],
                        j <= n,
                        1 <= head <= queue.len(),
                        forall|q: int| 0 <= q < queue.len() ==> #[trigger] queue@[q] < n && blue@[queue@[q] as int],
                        forall|i: int, jj: int|
                            0 <= i < n && 0 <= jj < n && blue@[i] && #[trigger] g.has_edge(i, jj) && !red@[jj] ==> (
                            exists|q: int| head <= q < queue.len() && #[trigger] queue@[q] == i) || (i == s && jj >= j),
                        count_true(blue@) == count_true(red@) + roots,
                        roots == count_true(exposed.take(r + 1)),
                        count_true(blue@) >= blue0,
                        count_true(blue@) == blue0 ==> queue.len() == len0,
                        queue.len() >= len0,
                    decreases n - j,
                {
                    let ghost q_old = queue@;
                    let ghost blue_old = blue@;
                    let ghost red_old = red@;
                    if g.adjacent(s, j) {
                        match col_mate[j] {
                            None => {
                                let f = Forest { blue, red, parent, depth: Ghost(depth) };
                                return (f, Some((s, j)));
                            },
                            Some(a) => {
                                if !red[j] {
                                    assert(row_mate@[a as int] == Some(j));
                                    assert(!blue@[a as int]);
                                    proof {
                                        lemma_count_true_update(red@, j as int, true);
                                        lemma_count_true_update(blue@, a as int, true);
                                    }
                                    red.set(j, true);
                                    parent.set(j, s);
                                    blue.set(a, true);
                                    proof {
                                        depth = depth.update(a as int, depth[s as int] + 1);
                                    }
                                    queue.push(a);
                                }
                            },
                        }
                    }
                    assert forall|i: int, jj: int|
                        0 <= i < n && 0 <= jj < n && blue@[i] && #[trigger] g.has_edge(i, jj) && !red@[jj] implies (
                        exists|q: int| head <= q < queue.len() && #[trigger] queue@[q] == i) || (i == s && jj >= j + 1) by {
                        assert(!red_old[jj]);
                        if blue_old[i] {
                            if !(i == s && jj >= j) {
                                let q = choose|q: int| head <= q < q_old.len() && #[trigger] q_old[q] == i;
                                assert(queue@[q] == i);
                            }
                        } else {
                            assert(queue@[queue.len() - 1] == i);
                        }
                    }
                    j += 1;
                }
                proof {
                    lemma_count_true_bounds(blue@);
                }
            }
        }
        r += 1;
    }
    proof {
        assert(exposed.take(n as int) =~= exposed);
        lemma_count_complement(matched_flags(row_mate@), exposed);
    }
    let f = Forest { blue, red, parent, depth: Ghost(depth) };
    (f, None)
}

/// Alternates growth phases and augmentations until a phase ends without
/// reaching an exposed task; the matching only grows.
pub fn hungarian_search(g: &EqualityGraph, row_mate: Vec<Option<usize>>, col_mate: Vec<Option<usize>>) -> (res: (
    Vec<Option<usize>>,
    Vec<Option<usize>>,
    Forest,
))
    requires
        g.wf(),
        is_matching(*g, row_mate@, col_mate@),
    ensures
        is_matching(*g, res.0@, res.1@),
        forest_ok(*g, res.0@, res.1@, res.2),
        forest_is_cover(*g, res.0@, res.2),
        matching_size(res.0@) >= matching_size(row_mate@),
        matching_size(res.0@) == matching_size(row_mate@) ==> res.0@ == row_mate@ && res.1@ == col_mate@,
{
    let mut rm = row_mate;
    let mut cm = col_mate;
    loop
        invariant
            g.wf(),
            is_matching(*g, rm@, cm@),
            matching_size(rm@) >= matching_size(row_mate@),
            matching_size(rm@) == matching_size(row_mate@) ==> rm@ == row_mate@ && cm@ == col_mate@,
        decreases g.n - matching_size(rm@),
    {
        proof {
            lemma_count_true_bounds(matched_flags(rm@));
        }
        let (f, found) = grow_forest(g, &rm, &cm);
        match found {
            None => {
                return (rm, cm, f);
            },
            Some((s, w)) => {
                augment(g, &mut rm, &mut cm, &f, s, w);
                proof {
                    lemma_count_true_bounds(matched_flags(rm@));
                }
            },
        }
    }
}

/// The pairs `(agent, task)` are edges of the graph and no agent or task
/// occurs twice.
pub open spec fn is_matching_list(g: EqualityGraph, m: Seq<(usize, usize)>) -> bool {
    &&& forall|k: int| 0 <= k < m.len() ==> g.has_edge(#[trigger] m[k].0 as int, m[k].1 as int)
    &&& forall|k1: int, k2: int|
        0 <= k1 < m.len() && 0 <= k2 < m.len() && k1 != k2 ==> #[trigger] m[k1].0 != #[trigger] m[k2].0 && m[k1].1
            != m[k2].1
}

/// Every edge has an endpoint in `cover`.
pub open spec fn is_vertex_cover(g: EqualityGraph, cover: Seq<Node>) -> bool {
    forall|i: int, j: int|
        #[trigger] g.has_edge(i, j) ==> cover.contains(Node::Agent(i as usize)) || cover.contains(
            Node::Task(j as usize),
        )
}

/// Position of a node when agents come first and tasks after them.
pub open spec fn node_key(x: Node, n: int) -> int {
    match x {
        Node::Agent(i) => i as int,
        Node::Task(j) => n + j as int,
    }
}

/// The nodes are in range and listed in strictly ascending order, agents
/// before tasks (so none is listed twice).
pub open spec fn is_ordered_node_list(s: Seq<Node>, n: int) -> bool {
    &&& forall|k: int| 0 <= k < s.len() ==> 0 <= #[trigger] node_key(s[k], n) < 2 * n
    &&& forall|k1: int, k2: int| 0 <= k1 < k2 < s.len() ==> node_key(#[trigger] s[k1], n) < node_key(#[trigger] s[k2], n)
}

/// Turns a list of pairs into mate tables, or `None` when the list is not a
/// matching of the graph.
pub(crate) fn mates_from_pairs(g: &EqualityGraph, pairs: &Vec<(usize, usize)>) -> (res: Option<(Vec<Option<usize>>, Vec<Option<usize>>)>)
    requires
        g.wf(),
    ensures
        res is Some <==> is_matching_list(*g, pairs@),
        res matches Some((rm, cm)) ==> is_matching(*g, rm@, cm@) && matching_size(rm@) == pairs.len(),
{
    let n = g.n;
    let mut rm: Vec<Option<usize>> = Vec::new();
    let mut cm: Vec<Option<usize>> = Vec::new();
    let mut k: usize = 0;
    while k < n
        invariant
            k <= n,
            rm.len() == k,
            cm.len() == k,
            forall|l: int| 0 <= l < k ==> (#[trigger] rm@[l]) is None,
            forall|l: int| 0 <= l < k ==> (#[trigger] cm@[l]) is None,
        decreases n - k,
    {
        rm.push(None);
        cm.push(None);
        k += 1;
    }
    proof {
        lemma_sum_bounds(|l: int| if matched_flags(rm@)[l] { 1int } else { 0int }, n as int, 0, 0);
    }
    let mut p: usize = 0;
    while p < pairs.len()
        invariant
            g.wf(),
            n == g.n,
            p <= pairs.len(),
            is_matching(*g, rm@, cm@),
            matching_size(rm@) == p,
            is_matching_list(*g, pairs@.take(p as int)),
            forall|q: int|
                0 <= q < p ==> #[trigger] pairs@[q].0 < n && pairs@[q].1 < n && rm@[pairs@[q].0 as int] == Some(
                    pairs@[q].1,
                ) && cm@[pairs@[q].1 as int] == Some(pairs@[q].0),
            forall|i: int|
                0 <= i < n && (#[trigger] rm@[i]) is Some ==> exists|q: int| 0 <= q < p && #[trigger] pairs@[q].0 == i,
            forall|j: int|
                0 <= j < n && (#[trigger] cm@[j]) is Some ==> exists|q: int| 0 <= q < p && #[trigger] pairs@[q].1 == j,
        decreases pairs.len() - p,
    {
        let (a, t) = pairs[p];
        if a >= n || t >= n || !g.adjacent(a, t) {
            assert(!g.has_edge(pairs@[p as int].0 as int, pairs@[p as int].1 as int));
            return None;
        }
        if rm[a].is_some() {
            proof {
                let q = choose|q: int| 0 <= q < p && #[trigger] pairs@[q].0 == a;
                assert(pairs@[q].0 == pairs@[p as int].0);
            }
            return None;
        }
        if cm[t].is_some() {
            proof {
                let q = choose|q: int| 0 <= q < p && #[trigger] pairs@[q].1 == t;
                assert(pairs@[q].1 == pairs@[p as int].1);
            }
            return None;
        }
        let ghost before = rm@;
        rm.set(a, Some(t));
        cm.set(t, Some(a));
        proof {
            assert(matched_flags(rm@) =~= matched_flags(before).update(a as int, true));
            lemma_count_true_update(matched_flags(before), a as int, true);
            let pre = pairs@.take(p as int);
            let post = pairs@.take(p + 1);
            assert forall|k1: int, k2: int|
                0 <= k1 < post.len() && 0 <= k2 < post.len() && k1 != k2 implies #[trigger] post[k1].0 != #[trigger] post[k2].0
                && post[k1].1 != post[k2].1 by {
                if k1 < p && k2 < p {
                    assert(pre[k1] == post[k1] && pre[k2] == post[k2]);
                } else if k1 < p {
                    assert(rm@[post[k1].0 as int] == Some(post[k1].1));
                    assert(before[post[k1].0 as int] == Some(post[k1].1));
                } else {
                    assert(before[post[k2].0 as int] == Some(post[k2].1));
                }
            }
            assert forall|k: int| 0 <= k < post.len() implies g.has_edge(#[trigger] post[k].0 as int, post[k].1 as int) by {
                if k < p {
                    assert(pre[k] == post[k]);
                } else {
                    assert(post[k] == pairs@[p as int]);
                }
            }
            assert forall|q: int| 0 <= q < p + 1 implies #[trigger] pairs@[q].0 < n && pairs@[q].1 < n && rm@[pairs@[q].0 as int]
                == Some(pairs@[q].1) && cm@[pairs@[q].1 as int] == Some(pairs@[q].0) by {
                if q < p {
                    assert(pairs@[q].0 != a);
                    assert(pairs@[q].1 != t);
                }
            }
        }
        p += 1;
    }
    proof {
        assert(pairs@.take(pairs.len() as int) =~= pairs@);
    }
    Some((rm, cm))
}

/// The matched pairs `(agent, task)` in ascending agent order.
pub(crate) fn pairs_from_mates(g: &EqualityGraph, rm: &Vec<Option<usize>>, cm: &Vec<Option<usize>>) -> (m: Vec<(usize, usize)>)
    requires
        g.wf(),
        is_matching(*g, rm@, cm@),
    ensures
        is_matching_list(*g, m@),
        m.len() == matching_size(rm@),
        forall|k: int| 0 <= k < m.len() ==> rm@[#[trigger] m@[k].0 as int] == Some(m@[k].1),
{
    let n = g.n;
    let mut m: Vec<(usize, usize)> = Vec::new();
    let mut i: usize = 0;
    proof {
        assert(count_true(matched_flags(rm@).take(0)) == 0);
    }
    while i < n
        invariant
            g.wf(),
            n == g.n,
            is_matching(*g, rm@, cm@),
            i <= n,
            m.len() == count_true(matched_flags(rm@).take(i as int)),
            forall|k: int| 0 <= k < m.len() ==> #[trigger] m@[k].0 < i && rm@[m@[k].0 as int] == Some(m@[k].1),
            forall|k1: int, k2: int| 0 <= k1 < k2 < m.len() ==> #[trigger] m@[k1].0 < #[trigger] m@[k2].0,
        decreases n - i,
    {
        proof {
            lemma_count_true_take(matched_flags(rm@), i as int);
        }
        if let Some(t) = rm[i] {
            m.push((i, t));
        }
        i += 1;
    }
    proof {
        assert(matched_flags(rm@).take(n as int) =~= matched_flags(rm@));
        assert forall|k1: int, k2: int|
            0 <= k1 < m.len() && 0 <= k2 < m.len() && k1 != k2 implies #[trigger] m@[k1].0 != #[trigger] m@[k2].0
            && m@[k1].1 != m@[k2].1 by {
            if k1 < k2 {
                assert(m@[k1].0 < m@[k2].0);
            } else {
                assert(m@[k2].0 < m@[k1].0);
            }
            assert(cm@[m@[k1].1 as int] == Some(m@[k1].0));
            assert(cm@[m@[k2].1 as int] == Some(m@[k2].0));
        }
    }
    m
}

/// The cover of a finished phase: the agents that are not blue, then the red
/// tasks, each in ascending order.
pub(crate) fn cover_nodes(n: usize, blue: &Vec<bool>, red: &Vec<bool>) -> (cover: Vec<Node>)
    requires
        blue.len() == n,
        red.len() == n,
    ensures
        is_ordered_node_list(cover@, n as int),
        cover.len() == n - count_true(blue@) + count_true(red@),
        forall|k: int|
            0 <= k < cover.len() ==> match #[trigger] cover@[k] {
                Node::Agent(i) => i < n && !blue@[i as int],
                Node::Task(j) => j < n && red@[j as int],
            },
        forall|i: int| 0 <= i < n && !#[trigger] blue@[i] ==> cover@.contains(Node::Agent(i as usize)),
        forall|j: int| 0 <= j < n && #[trigger] red@[j] ==> cover@.contains(Node::Task(j as usize)),
{
    let mut cover: Vec<Node> = Vec::new();
    let mut i: usize = 0;
    proof {
        assert(count_true(blue@.take(0)) == 0);
        assert(count_true(red@.take(0)) == 0);
    }
    while i < n
        invariant
            blue.len() == n,
            red.len() == n,
            i <= n,
            cover.len() == i - count_true(blue@.take(i as int)),
            forall|k: int| 0 <= k < cover.len() ==> 0 <= #[trigger] node_key(cover@[k], n as int) < i,
            forall|k1: int, k2: int|
                0 <= k1 < k2 < cover.len() ==> node_key(#[trigger] cover@[k1], n as int) < node_key(
                    #[trigger] cover@[k2],
                    n as int,
                ),
            forall|k: int|
                0 <= k < cover.len() ==> match #[trigger] cover@[k] {
                    Node::Agent(a) => a < i && !blue@[a as int],
                    Node::Task(_) => false,
                },
            forall|a: int| 0 <= a < i && !#[trigger] blue@[a] ==> cover@.contains(Node::Agent(a as usize)),
        decreases n - i,
    {
        proof {
            lemma_count_true_take(blue@, i as int);
        }
        if !blue[i] {
            let ghost old_cover = cover@;
            cover.push(Node::Agent(i));
            proof {
                assert(cover@[cover.len() - 1] == Node::Agent(i));
                assert forall|a: int| 0 <= a < i + 1 && !#[trigger] blue@[a] implies cover@.contains(Node::Agent(a as usize)) by {
                    if a < i {
                        let k = choose|k: int| 0 <= k < old_cover.len() && old_cover[k] == Node::Agent(a as usize);
                        assert(cover@[k] == old_cover[k]);
                    }
                }
            }
        }
        i += 1;
    }
    proof {
        assert(blue@.take(n as int) =~= blue@);
        lemma_count_true_bounds(blue@);
    }
    let ghost agents = cover.len();
    let mut j: usize = 0;
    while j < n
        invariant
            blue.len() == n,
            red.len() == n,
            j <= n,
            agents == n - count_true(blue@),
            cover.len() == agents + count_true(red@.take(j as int)),
            forall|k: int| 0 <= k < cover.len() ==> 0 <= #[trigger] node_key(cover@[k], n as int) < n + j,
            forall|k1: int, k2: int|
                0 <= k1 < k2 < cover.len() ==> node_key(#[trigger] cover@[k1], n as int) < node_key(
                    #[trigger] cover@[k2],
                    n as int,
                ),
            forall|k: int|
                0 <= k < cover.len() ==> match #[trigger] cover@[k] {
                    Node::Agent(a) => a < n && !blue@[a as int],
                    Node::Task(t) => t < j && red@[t as int],
                },
            forall|a: int| 0 <= a < n && !#[trigger] blue@[a] ==> cover@.contains(Node::Agent(a as usize)),
            forall|t: int| 0 <= t < j && #[trigger] red@[t] ==> cover@.contains(Node::Task(t as usize)),
        decreases n - j,
    {
        proof {
            lemma_count_true_take(red@, j as int);
        }
        if red[j] {
            let ghost old_cover = cover@;
            cover.push(Node::Task(j));
            proof {
                assert(cover@[cover.len() - 1] == Node::Task(j));
                assert forall|a: int| 0 <= a < n && !#[trigger] blue@[a] implies cover@.contains(Node::Agent(a as usize)) by {
                    let k = choose|k: int| 0 <= k < old_cover.len() && old_cover[k] == Node::Agent(a as usize);
                    assert(cover@[k] == old_cover[k]);
                }
                assert forall|t: int| 0 <= t < j + 1 && #[trigger] red@[t] implies cover@.contains(Node::Task(t as usize)) by {
                    if t < j {
                        let k = choose|k: int| 0 <= k < old_cover.len() && old_cover[k] == Node::Task(t as usize);
                        assert(cover@[k] == old_cover[k]);
                    }
                }
            }
        }
        j += 1;
    }
    proof {
        assert(red@.take(n as int) =~= red@);
    }
    cover
}

/// König's bound over any edge relation: pairwise disjoint pairs that are all
/// edges number at most the entries of a list that touches every edge.
pub proof fn lemma_disjoint_edges_at_most_cover(edge: spec_fn(int, int) -> bool, m: Seq<(usize, usize)>, cover: Seq<Node>)
    requires
        forall|k: int| 0 <= k < m.len() ==> #[trigger] edge(m[k].0 as int, m[k].1 as int),
        forall|k1: int, k2: int|
            0 <= k1 < m.len() && 0 <= k2 < m.len() && k1 != k2 ==> #[trigger] m[k1].0 != #[trigger] m[k2].0 && m[k1].1
                != m[k2].1,
        forall|i: int, j: int|
            #[trigger] edge(i, j) ==> cover.contains(Node::Agent(i as usize)) || cover.contains(Node::Task(j as usize)),
    ensures
        m.len() <= cover.len(),
{
    let x = set_int_range(0, m.len() as int);
    lemma_int_range(0, m.len() as int);
    let f = |k: int|
        if cover.contains(Node::Agent(m[k].0)) {
            Node::Agent(m[k].0)
        } else {
            Node::Task(m[k].1)
        };
    assert(injective_on(f, x)) by {
        assert forall|k1: int, k2: int| x.contains(k1) && x.contains(k2) && #[trigger] f(k1) == #[trigger] f(k2) implies k1 == k2 by {
            if k1 != k2 {
                assert(m[k1].0 != m[k2].0 && m[k1].1 != m[k2].1);
            }
        }
    }
    let y = x.map(f);
    lemma_map_size(x, y, f);
    assert forall|z: Node| y.contains(z) implies cover.to_set().contains(z) by {
        let k = choose|k: int| x.contains(k) && f(k) == z;
        assert(edge(m[k].0 as int, m[k].1 as int));
    }
    seq_to_set_is_finite(cover);
    lemma_len_subset(y, cover.to_set());
    cover.lemma_cardinality_of_set();
}

/// König's bound: a matching of the graph has at most as many pairs as a
/// vertex cover has entries. A matching and a cover of equal size are
/// therefore a maximum matching and a minimum vertex cover.
pub proof fn lemma_matching_at_most_cover(g: EqualityGraph, m: Seq<(usize, usize)>, cover: Seq<Node>)
    requires
        is_matching_list(g, m),
        is_vertex_cover(g, cover),
    ensures
        m.len() <= cover.len(),
{
    let edge = |i: int, j: int| g.has_edge(i, j);
    lemma_disjoint_edges_at_most_cover(edge, m, cover);
}

/// Completes `matched_edges`, a matching of the equality graph given as
/// `(agent, task)` pairs, to a maximum matching, and returns a minimum vertex
/// cover with it. `None` when the pairs are not a matching of the graph.
pub fn hungarian_maximum_matching(g: &EqualityGraph, matched_edges: &Vec<(usize, usize)>) -> (res: Option<(Vec<Node>, Vec<(usize, usize)>)>)
    requires
        g.wf(),
    ensures
        res is Some <==> is_matching_list(*g, matched_edges@),
        res matches Some((cover, m)) ==> {
            &&& is_matching_list(*g, m@)
            &&& m.len() >= matched_edges.len()
            &&& is_vertex_cover(*g, cover@)
            &&& is_ordered_node_list(cover@, g.n as int)
            &&& cover.len() == m.len()
            &&& forall|m2: Seq<(usize, usize)>| #[trigger] is_matching_list(*g, m2) ==> m2.len() <= m.len()
            &&& forall|c2: Seq<Node>| #[trigger] is_vertex_cover(*g, c2) ==> cover.len() <= c2.len()
        },
{
    match mates_from_pairs(g, matched_edges) {
        None => None,
        Some((rm, cm)) => {
            let (rm, cm, f) = hungarian_search(g, rm, cm);
            let m = pairs_from_mates(g, &rm, &cm);
            let cover = cover_nodes(g.n, &f.blue, &f.red);
            proof {
                assert forall|i: int, j: int| #[trigger] g.has_edge(i, j) implies cover@.contains(Node::Agent(i as usize))
                    || cover@.contains(Node::Task(j as usize)) by {
                    if f.blue@[i] {
                        assert(f.red@[j]);
                    }
                }
                assert forall|m2: Seq<(usize, usize)>| #[trigger] is_matching_list(*g, m2) implies m2.len() <= m.len() by {
                    lemma_matching_at_most_cover(*g, m2, cover@);
                }
                assert forall|c2: Seq<Node>| #[trigger] is_vertex_cover(*g, c2) implies cover.len() <= c2.len() by {
                    lemma_matching_at_most_cover(*g, m@, c2);
                }
            }
            Some((cover, m))
        },
    }
}

} // verus!
