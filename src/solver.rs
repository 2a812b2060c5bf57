//! The optimization driver: build the equality subgraph, search a maximum
//! matching, stop when it is perfect, otherwise take a dual step and repeat.
//! Every iteration is recorded as an immutable snapshot.
use vstd::prelude::*;
use vstd::pervasive::arbitrary;
use crate::bipartite::bipartite_undirected;
use crate::duals::{update_duals, REDUCED_BOUND};
use crate::equality::{generate_equality_graph, lemma_equality_graph_bipartite, EqualityGraph, Node};
use crate::error::{AssignmentError, InputError};
use crate::hungarian::{
    cover_nodes, forest_is_cover, forest_ok, hungarian_search, Forest, is_matching, is_matching_list, is_vertex_cover,
    lemma_disjoint_edges_at_most_cover, matched_flags, matching_size, mates_from_pairs, pairs_from_mates,
};
use crate::matrix::{
    bounded, cost, feasible, generate_u_vector, generate_v_vector, is_column_minimum, is_feasible,
    is_row_minimum, is_square, is_square_i64, reduced_cost, reduced_costs, DUAL_BOUND, MAX_DIM,
};
use crate::sums::{
    count_true, lemma_count_false_witness, lemma_count_true_bounds, lemma_count_true_grows, lemma_count_true_witness,
    lemma_injective_onto, lemma_sum_add, lemma_sum_bounds, lemma_sum_le,
    lemma_sum_masked, lemma_sum_permuted, sum_range,
};

verus! {

/// Which malformation, if any, the input shows; checked in this order.
pub open spec fn input_error(c: Seq<Vec<i32>>, u_seed: Seq<i32>, v_seed: Seq<i32>) -> Option<InputError> {
    if c.len() == 0 {
        Some(InputError::EmptyMatrix)
    } else if exists|i: int| 0 <= i < c.len() && #[trigger] c[i]@.len() != c[0]@.len() {
        Some(InputError::RaggedRows)
    } else if c[0]@.len() != c.len() {
        Some(InputError::NotSquare)
    } else if c.len() > MAX_DIM {
        Some(InputError::TooLarge)
    } else if (u_seed.len() != 0 && u_seed.len() != c.len()) || (v_seed.len() != 0 && v_seed.len() != c.len()) {
        Some(InputError::DualLengthMismatch)
    } else {
        None
    }
}

/// Checks the shape of the cost matrix and of the seeded duals; an empty seed
/// means that the dual is to be derived.
pub fn validate(c: &Vec<Vec<i32>>, u_seed: &Vec<i32>, v_seed: &Vec<i32>) -> (r: Option<InputError>)
    ensures
        r == input_error(c@, u_seed@, v_seed@),
        r is None ==> is_square(c@) && 0 < c.len() <= MAX_DIM,
{
    let n = c.len();
    if n == 0 {
        return Some(InputError::EmptyMatrix);
    }
    let m = c[0].len();
    let mut i: usize = 0;
    while i < n
        invariant
            n == c.len(),
            n > 0,
            m == c@[0]@.len(),
            i <= n,
            forall|k: int| 0 <= k < i ==> #[trigger] c@[k]@.len() == m,
        decreases n - i,
    {
        if c[i].len() != m {
            return Some(InputError::RaggedRows);
        }
        i += 1;
    }
    if m != n {
        return Some(InputError::NotSquare);
    }
    if n > MAX_DIM {
        return Some(InputError::TooLarge);
    }
    if (u_seed.len() != 0 && u_seed.len() != n) || (v_seed.len() != 0 && v_seed.len() != n) {
        return Some(InputError::DualLengthMismatch);
    }
    None
}

/// The agent duals to start from: the seed, or the row minima without one.
pub open spec fn is_start_u(c: Seq<Vec<i32>>, u_seed: Seq<i32>, u: Seq<i64>) -> bool {
    &&& u.len() == c.len()
    &&& forall|i: int|
        0 <= i < c.len() ==> if u_seed.len() == 0 {
            is_row_minimum(c, i, #[trigger] u[i] as int)
        } else {
            u[i] == u_seed[i]
        }
}

/// The task duals to start from: the seed, or without one the column minima of
/// `c[i][j] - u[i]`.
pub open spec fn is_start_v(c: Seq<Vec<i32>>, v_seed: Seq<i32>, u: Seq<i64>, v: Seq<i64>) -> bool {
    &&& v.len() == c.len()
    &&& forall|j: int|
        0 <= j < c.len() ==> if v_seed.len() == 0 {
            is_column_minimum(c, u, j, #[trigger] v[j] as int)
        } else {
            v[j] == v_seed[j]
        }
}

/// The duals the driver starts from.
pub open spec fn is_start(c: Seq<Vec<i32>>, u_seed: Seq<i32>, v_seed: Seq<i32>, u: Seq<i64>, v: Seq<i64>) -> bool {
    is_start_u(c, u_seed, u) && is_start_v(c, v_seed, u, v)
}

/// The starting duals are determined by the input.
proof fn lemma_start_unique(
    c: Seq<Vec<i32>>,
    u_seed: Seq<i32>,
    v_seed: Seq<i32>,
    u: Seq<i64>,
    v: Seq<i64>,
    u2: Seq<i64>,
    v2: Seq<i64>,
)
    requires
        is_start(c, u_seed, v_seed, u, v),
        is_start(c, u_seed, v_seed, u2, v2),
    ensures
        u == u2,
        v == v2,
{
    assert forall|i: int| 0 <= i < c.len() implies u[i] == u2[i] by {
        if u_seed.len() == 0 {
            assert(is_row_minimum(c, i, u[i] as int));
            assert(is_row_minimum(c, i, u2[i] as int));
            let j1 = choose|j: int| 0 <= j < c.len() && u[i] as int == #[trigger] cost(c, i, j);
            let j2 = choose|j: int| 0 <= j < c.len() && u2[i] as int == #[trigger] cost(c, i, j);
            assert(u[i] <= cost(c, i, j2));
            assert(u2[i] <= cost(c, i, j1));
        }
    }
    assert(u =~= u2);
    assert forall|j: int| 0 <= j < c.len() implies v[j] == v2[j] by {
        if v_seed.len() == 0 {
            assert(is_column_minimum(c, u, j, v[j] as int));
            assert(is_column_minimum(c, u, j, v2[j] as int));
            let i1 = choose|i: int| 0 <= i < c.len() && v[j] as int == #[trigger] cost(c, i, j) - u[i];
            let i2 = choose|i: int| 0 <= i < c.len() && v2[j] as int == #[trigger] cost(c, i, j) - u[i];
            assert(v[j] <= cost(c, i2, j) - u[i2]);
            assert(v2[j] <= cost(c, i1, j) - u[i1]);
        }
    }
    assert(v =~= v2);
}

/// Widens a vector of `i32` to `i64`.
fn widen(s: &Vec<i32>) -> (r: Vec<i64>)
    ensures
        r.len() == s.len(),
        forall|k: int| 0 <= k < s.len() ==> #[trigger] r@[k] == s@[k] as i64,
{
    let mut r: Vec<i64> = Vec::new();
    let mut k: usize = 0;
    while k < s.len()
        invariant
            k <= s.len(),
            r.len() == k,
            forall|l: int| 0 <= l < k ==> #[trigger] r@[l] == s@[l] as i64,
        decreases s.len() - k,
    {
        r.push(s[k] as i64);
        k += 1;
    }
    r
}

/// Bound on the starting agent duals.
pub const START_U_BOUND: i64 = 2147483648;

/// Bound on the starting task duals.
pub const START_V_BOUND: i64 = 8589934592;

/// The starting duals: the seeds where given, derived otherwise; refused when
/// they are not feasible.
fn start_duals(c: &Vec<Vec<i32>>, u_seed: &Vec<i32>, v_seed: &Vec<i32>) -> (res: Result<(Vec<i64>, Vec<i64>), AssignmentError>)
    requires
        input_error(c@, u_seed@, v_seed@) is None,
        is_square(c@),
        0 < c.len() <= MAX_DIM,
    ensures
        res is Err <==> forall|u: Seq<i64>, v: Seq<i64>| #[trigger] is_start(c@, u_seed@, v_seed@, u, v) ==> !feasible(c@, u, v),
        res is Err ==> res == Err::<(Vec<i64>, Vec<i64>), AssignmentError>(AssignmentError::Input(InputError::InfeasibleDuals)),
        res matches Ok((u, v)) ==> {
            &&& is_start(c@, u_seed@, v_seed@, u@, v@)
            &&& feasible(c@, u@, v@)
            &&& bounded(u@, START_U_BOUND as int)
            &&& bounded(v@, START_V_BOUND as int)
        },
{
    let u: Vec<i64> = if u_seed.len() == 0 {
        let m = generate_u_vector(c);
        widen(&m)
    } else {
        widen(u_seed)
    };
    assert(bounded(u@, START_U_BOUND as int));
    let v: Vec<i64> = if v_seed.len() == 0 {
        let w = generate_v_vector(c, &u);
        assert forall|j: int| 0 <= j < c.len() implies -START_V_BOUND <= #[trigger] w@[j] <= START_V_BOUND by {
            assert(is_column_minimum(c@, u@, j, w@[j] as int));
            let i = choose|i: int| 0 <= i < c.len() && w@[j] as int == #[trigger] cost(c@, i, j) - u@[i];
        }
        w
    } else {
        widen(v_seed)
    };
    assert(is_start(c@, u_seed@, v_seed@, u@, v@));
    if !is_feasible(c, &u, &v) {
        proof {
            assert forall|u2: Seq<i64>, v2: Seq<i64>| #[trigger] is_start(c@, u_seed@, v_seed@, u2, v2) implies !feasible(c@, u2, v2) by {
                lemma_start_unique(c@, u_seed@, v_seed@, u@, v@, u2, v2);
            }
        }
        return Err(AssignmentError::Input(InputError::InfeasibleDuals));
    }
    Ok((u, v))
}

/// One iteration's record: the duals, the reduced costs, the equality
/// subgraph's edges `(agent, task)`, the maximum matching found in it and a
/// minimum vertex cover of it.
pub struct ProblemState {
    pub u: Vec<i64>,
    pub v: Vec<i64>,
    pub reduced: Vec<Vec<i64>>,
    pub edges: Vec<(usize, usize)>,
    pub matching: Vec<(usize, usize)>,
    pub cover: Vec<Node>,
}

/// Agent `i` and task `j` are in range and their reduced cost is zero.
pub open spec fn is_zero_pair(c: Seq<Vec<i32>>, u: Seq<i64>, v: Seq<i64>, i: int, j: int) -> bool {
    &&& 0 <= i < c.len()
    &&& 0 <= j < c.len()
    &&& reduced_cost(c, u, v, i, j) == 0
}

/// A snapshot is consistent with the cost matrix: feasible duals, their reduced
/// costs, exactly the zero pairs as edges, a matching made of zero pairs, and a
/// cover of the zero pairs as large as the matching.
pub open spec fn snapshot_ok(c: Seq<Vec<i32>>, s: ProblemState) -> bool {
    let n = c.len() as int;
    let u = s.u@;
    let v = s.v@;
    &&& feasible(c, u, v)
    &&& is_square_i64(s.reduced@, n)
    &&& forall|i: int, j: int|
        0 <= i < n && 0 <= j < n ==> #[trigger] s.reduced@[i]@[j] == reduced_cost(c, u, v, i, j)
    &&& forall|k: int|
        0 <= k < s.edges.len() ==> is_zero_pair(c, u, v, #[trigger] s.edges@[k].0 as int, s.edges@[k].1 as int)
    &&& forall|i: int, j: int| #[trigger] is_zero_pair(c, u, v, i, j) ==> s.edges@.contains((i as usize, j as usize))
    &&& forall|k: int|
        0 <= k < s.matching.len() ==> is_zero_pair(c, u, v, #[trigger] s.matching@[k].0 as int, s.matching@[k].1 as int)
    &&& forall|k1: int, k2: int|
        0 <= k1 < s.matching.len() && 0 <= k2 < s.matching.len() && k1 != k2 ==> #[trigger] s.matching@[k1].0
            != #[trigger] s.matching@[k2].0 && s.matching@[k1].1 != s.matching@[k2].1
    &&& forall|i: int, j: int|
        #[trigger] is_zero_pair(c, u, v, i, j) ==> s.cover@.contains(Node::Agent(i as usize)) || s.cover@.contains(
            Node::Task(j as usize),
        )
    &&& s.cover.len() == s.matching.len()
}

/// Every snapshot's matching is a maximum matching of its equality subgraph:
/// no set of disjoint zero pairs is larger.
pub proof fn lemma_snapshot_matching_is_maximum(c: Seq<Vec<i32>>, s: ProblemState, m: Seq<(usize, usize)>)
    requires
        snapshot_ok(c, s),
        forall|k: int| 0 <= k < m.len() ==> is_zero_pair(c, s.u@, s.v@, #[trigger] m[k].0 as int, m[k].1 as int),
        forall|k1: int, k2: int|
            0 <= k1 < m.len() && 0 <= k2 < m.len() && k1 != k2 ==> #[trigger] m[k1].0 != #[trigger] m[k2].0 && m[k1].1
                != m[k2].1,
    ensures
        m.len() <= s.matching.len(),
{
    let edge = |i: int, j: int| is_zero_pair(c, s.u@, s.v@, i, j);
    assert forall|k: int| 0 <= k < m.len() implies #[trigger] edge(m[k].0 as int, m[k].1 as int) by {
        assert(is_zero_pair(c, s.u@, s.v@, m[k].0 as int, m[k].1 as int));
    }
    lemma_disjoint_edges_at_most_cover(edge, m, s.cover@);
}

/// `sum(u) + sum(v)`.
pub open spec fn dual_objective(u: Seq<i64>, v: Seq<i64>) -> int {
    sum_range(|i: int| u[i] as int, u.len() as int) + sum_range(|j: int| v[j] as int, v.len() as int)
}

/// Total cost of the pairs `(agent, task)`.
pub open spec fn matching_cost(c: Seq<Vec<i32>>, m: Seq<(usize, usize)>) -> int {
    sum_range(|k: int| cost(c, m[k].0 as int, m[k].1 as int), m.len() as int)
}

/// Some pair has agent `i`.
pub open spec fn matches_row(m: Seq<(usize, usize)>, i: int) -> bool {
    exists|k: int| 0 <= k < m.len() && m[k].0 == i
}

/// Some pair has task `j`.
pub open spec fn matches_column(m: Seq<(usize, usize)>, j: int) -> bool {
    exists|k: int| 0 <= k < m.len() && m[k].1 == j
}

/// `n` pairs that reach every row and every column.
pub open spec fn is_perfect(m: Seq<(usize, usize)>, n: int) -> bool {
    &&& m.len() == n
    &&& forall|i: int| 0 <= i < n ==> #[trigger] matches_row(m, i)
    &&& forall|j: int| 0 <= j < n ==> #[trigger] matches_column(m, j)
}

/// From one snapshot's duals to the next: the dual objective grows strictly
/// and a pair outside the equality subgraph enters it.
pub open spec fn is_progress(c: Seq<Vec<i32>>, u: Seq<i64>, v: Seq<i64>, u2: Seq<i64>, v2: Seq<i64>) -> bool {
    &&& dual_objective(u, v) < dual_objective(u2, v2)
    &&& exists|i: int, j: int|
        0 <= i < c.len() && 0 <= j < c.len() && reduced_cost(c, u, v, i, j) != 0 && #[trigger] reduced_cost(
            c,
            u2,
            v2,
            i,
            j,
        ) == 0
}

/// A solution trace: consistent snapshots, progress between consecutive ones,
/// and a last one whose matching is perfect and costs the dual objective.
pub open spec fn is_solution_trace(c: Seq<Vec<i32>>, t: Seq<ProblemState>) -> bool {
    let n = c.len() as int;
    &&& t.len() >= 1
    &&& forall|k: int| 0 <= k < t.len() ==> snapshot_ok(c, #[trigger] t[k])
    &&& forall|k: int|
        0 <= k < t.len() - 1 ==> (#[trigger] t[k]).matching.len() < n && is_progress(
            c,
            t[k].u@,
            t[k].v@,
            t[k + 1].u@,
            t[k + 1].v@,
        )
    &&& is_perfect(t.last().matching@, n)
    &&& matching_cost(c, t.last().matching@) == dual_objective(t.last().u@, t.last().v@)
}

/// `sum(c[k][k] - u[k] - v[k])`: not negative while the duals are feasible,
/// and it drops with every dual step.
pub open spec fn potential(c: Seq<Vec<i32>>, u: Seq<i64>, v: Seq<i64>) -> int {
    sum_range(|k: int| cost(c, k, k) - u[k] - v[k], c.len() as int)
}

/// The potential is the diagonal's cost minus the dual objective.
proof fn lemma_potential_objective(c: Seq<Vec<i32>>, u: Seq<i64>, v: Seq<i64>)
    requires
        u.len() == c.len(),
        v.len() == c.len(),
    ensures
        potential(c, u, v) == sum_range(|k: int| cost(c, k, k), c.len() as int) - dual_objective(u, v),
{
    let n = c.len() as int;
    let fu = |i: int| u[i] as int;
    let fv = |j: int| v[j] as int;
    let fuv = |k: int| u[k] + v[k];
    let pot = |k: int| cost(c, k, k) - u[k] - v[k];
    let diag = |k: int| cost(c, k, k);
    lemma_sum_add(fu, fv, fuv, n);
    lemma_sum_add(pot, fuv, diag, n);
}

/// Bound on the potential of the starting duals.
pub const POTENTIAL_BOUND: i64 = 18014398509481984;

/// The potential of feasible duals lies in `[0, n * bound]`.
proof fn lemma_potential_bounds(c: Seq<Vec<i32>>, u: Seq<i64>, v: Seq<i64>)
    requires
        is_square(c),
        c.len() <= MAX_DIM,
        feasible(c, u, v),
        bounded(u, START_U_BOUND as int),
        bounded(v, START_V_BOUND as int),
    ensures
        0 <= potential(c, u, v) <= POTENTIAL_BOUND as int,
{
    let n = c.len() as int;
    let pot = |k: int| cost(c, k, k) - u[k] - v[k];
    assert forall|k: int| 0 <= k < n implies 0 <= #[trigger] pot(k) <= 17179869184 by {
        assert(u[k] + v[k] <= cost(c, k, k));
        assert(c[k]@.len() == n);
    }
    lemma_sum_bounds(pot, n, 0, 17179869184);
    assert(n * 17179869184 <= POTENTIAL_BOUND as int) by (nonlinear_arith)
        requires
            n <= MAX_DIM,
    ;
    assert(n * 0 == 0);
}

/// The potential of feasible duals is not negative.
proof fn lemma_potential_nonnegative(c: Seq<Vec<i32>>, u: Seq<i64>, v: Seq<i64>)
    requires
        feasible(c, u, v),
    ensures
        potential(c, u, v) >= 0,
{
    let n = c.len() as int;
    let pot = |k: int| cost(c, k, k) - u[k] - v[k];
    let zero = |k: int| 0int;
    assert forall|k: int| 0 <= k < n implies #[trigger] zero(k) <= pot(k) by {
        assert(u[k] + v[k] <= cost(c, k, k));
    }
    lemma_sum_le(zero, pot, n);
    lemma_sum_bounds(zero, n, 0, 0);
    assert(n * 0 == 0);
}

/// A dual step by the smallest uncovered reduced cost keeps the duals
/// feasible and lowers the potential by at least that step.
proof fn lemma_dual_step(
    c: Seq<Vec<i32>>,
    u: Seq<i64>,
    v: Seq<i64>,
    u2: Seq<i64>,
    v2: Seq<i64>,
    blue: Seq<bool>,
    red: Seq<bool>,
    eps: int,
    size: int,
)
    requires
        is_square(c),
        feasible(c, u, v),
        blue.len() == c.len(),
        red.len() == c.len(),
        u2.len() == c.len(),
        v2.len() == c.len(),
        size < c.len(),
        count_true(blue) == count_true(red) + (c.len() - size),
        eps >= 1,
        forall|i: int, j: int|
            0 <= i < c.len() && 0 <= j < c.len() && blue[i] && !red[j] ==> eps <= #[trigger] reduced_cost(c, u, v, i, j),
        forall|i: int| 0 <= i < c.len() ==> #[trigger] u2[i] == u[i] + if blue[i] { eps } else { 0 },
        forall|j: int| 0 <= j < c.len() ==> #[trigger] v2[j] == v[j] - if red[j] { eps } else { 0 },
    ensures
        feasible(c, u2, v2),
        potential(c, u2, v2) <= potential(c, u, v) - eps,
        dual_objective(u, v) < dual_objective(u2, v2),
{
    let n = c.len() as int;
    assert forall|i: int, j: int| 0 <= i < n && 0 <= j < n implies u2[i] + v2[j] <= #[trigger] cost(c, i, j) by {
        assert(u[i] + v[j] <= cost(c, i, j));
        if blue[i] && !red[j] {
            assert(eps <= reduced_cost(c, u, v, i, j));
        }
    }
    let pot = |k: int| cost(c, k, k) - u[k] - v[k];
    let mid = |k: int| pot(k) + if blue[k] { -eps } else { 0 };
    let pot2 = |k: int| cost(c, k, k) - u2[k] - v2[k];
    lemma_sum_masked(pot, mid, blue, -eps);
    lemma_sum_masked(mid, pot2, red, eps);
    assert(sum_range(mid, n) == potential(c, u, v) + (-eps) * count_true(blue));
    assert(potential(c, u2, v2) == sum_range(mid, n) + eps * count_true(red));
    let d = n - size;
    let cb = count_true(blue);
    let cr = count_true(red);
    assert((-eps) * cb + eps * cr == -(eps * d)) by (nonlinear_arith)
        requires
            cb == cr + d,
    ;
    assert(potential(c, u2, v2) == potential(c, u, v) - eps * d);
    assert(eps * d >= eps) by (nonlinear_arith)
        requires
            d >= 1,
            eps >= 1,
    ;
    lemma_potential_objective(c, u, v);
    lemma_potential_objective(c, u2, v2);
}

/// A perfect list of zero pairs reaches every row and column, and its cost is
/// the dual objective.
proof fn lemma_perfect_matching(c: Seq<Vec<i32>>, u: Seq<i64>, v: Seq<i64>, m: Seq<(usize, usize)>)
    requires
        is_square(c),
        u.len() == c.len(),
        v.len() == c.len(),
        m.len() == c.len(),
        forall|k: int| 0 <= k < m.len() ==> is_zero_pair(c, u, v, #[trigger] m[k].0 as int, m[k].1 as int),
        forall|k1: int, k2: int|
            0 <= k1 < m.len() && 0 <= k2 < m.len() && k1 != k2 ==> #[trigger] m[k1].0 != #[trigger] m[k2].0 && m[k1].1
                != m[k2].1,
    ensures
        is_perfect(m, c.len() as int),
        matching_cost(c, m) == dual_objective(u, v),
{
    let n = c.len() as int;
    let pr = |k: int| m[k].0 as int;
    let pc = |k: int| m[k].1 as int;
    assert forall|k: int| 0 <= k < n implies 0 <= #[trigger] pr(k) < n by {
        assert(is_zero_pair(c, u, v, m[k].0 as int, m[k].1 as int));
    }
    assert forall|k: int| 0 <= k < n implies 0 <= #[trigger] pc(k) < n by {
        assert(is_zero_pair(c, u, v, m[k].0 as int, m[k].1 as int));
    }
    assert forall|k1: int, k2: int| 0 <= k1 < n && 0 <= k2 < n && k1 != k2 implies #[trigger] pr(k1) != #[trigger] pr(k2) by {
        assert(m[k1].0 != m[k2].0);
    }
    assert forall|k1: int, k2: int| 0 <= k1 < n && 0 <= k2 < n && k1 != k2 implies #[trigger] pc(k1) != #[trigger] pc(k2) by {
        assert(m[k1].0 != m[k2].0 && m[k1].1 != m[k2].1);
    }
    let qr = |i: int| choose|k: int| 0 <= k < n && #[trigger] pr(k) == i;
    let qc = |j: int| choose|k: int| 0 <= k < n && #[trigger] pc(k) == j;
    assert forall|i: int| 0 <= i < n implies #[trigger] matches_row(m, i) && 0 <= qr(i) < n && pr(qr(i)) == i by {
        let k = lemma_injective_onto(pr, n, i);
        assert(m[k].0 == i);
    }
    assert forall|j: int| 0 <= j < n implies #[trigger] matches_column(m, j) && 0 <= qc(j) < n && pc(qc(j)) == j by {
        let k = lemma_injective_onto(pc, n, j);
        assert(m[k].1 == j);
    }
    assert forall|k: int| 0 <= k < n implies 0 <= #[trigger] pr(k) < n && qr(pr(k)) == k by {
        assert(matches_row(m, pr(k)));
        let k2 = qr(pr(k));
        assert(pr(k2) == pr(k));
    }
    assert forall|i: int| 0 <= i < n implies 0 <= #[trigger] qr(i) < n && pr(qr(i)) == i by {
        assert(matches_row(m, i));
    }
    assert forall|k: int| 0 <= k < n implies 0 <= #[trigger] pc(k) < n && qc(pc(k)) == k by {
        assert(matches_column(m, pc(k)));
        let k2 = qc(pc(k));
        assert(pc(k2) == pc(k));
    }
    assert forall|j: int| 0 <= j < n implies 0 <= #[trigger] qc(j) < n && pc(qc(j)) == j by {
        assert(matches_column(m, j));
    }
    let fu = |i: int| u[i] as int;
    let fv = |j: int| v[j] as int;
    lemma_sum_permuted(fu, pr, qr, n);
    lemma_sum_permuted(fv, pc, qc, n);
    let mu = |k: int| fu(pr(k));
    let mv = |k: int| fv(pc(k));
    let mc = |k: int| cost(c, m[k].0 as int, m[k].1 as int);
    assert forall|k: int| 0 <= k < n implies #[trigger] mc(k) == mu(k) + mv(k) by {
        assert(is_zero_pair(c, u, v, m[k].0 as int, m[k].1 as int));
    }
    lemma_sum_add(mu, mv, mc, n);
}

/// Weak duality: under feasible duals, every assignment of the `n` tasks to the
/// `n` agents (a bijection `p` with inverse `q`) costs at least the dual
/// objective. A perfect matching that costs exactly the dual objective is
/// therefore a minimum-cost assignment.
pub proof fn lemma_weak_duality(
    c: Seq<Vec<i32>>,
    u: Seq<i64>,
    v: Seq<i64>,
    p: spec_fn(int) -> int,
    q: spec_fn(int) -> int,
)
    requires
        is_square(c),
        feasible(c, u, v),
        forall|k: int| 0 <= k < c.len() ==> 0 <= #[trigger] p(k) < c.len() && q(p(k)) == k,
        forall|j: int| 0 <= j < c.len() ==> 0 <= #[trigger] q(j) < c.len() && p(q(j)) == j,
    ensures
        sum_range(|i: int| cost(c, i, p(i)), c.len() as int) >= dual_objective(u, v),
{
    let n = c.len() as int;
    let fu = |i: int| u[i] as int;
    let fv = |j: int| v[j] as int;
    let fvp = |i: int| fv(p(i));
    let both = |i: int| fu(i) + fvp(i);
    let cp = |i: int| cost(c, i, p(i));
    lemma_sum_permuted(fv, p, q, n);
    lemma_sum_add(fu, fvp, both, n);
    assert forall|i: int| 0 <= i < n implies #[trigger] both(i) <= cp(i) by {
        assert(u[i] + v[p(i)] <= cost(c, i, p(i)));
    }
    lemma_sum_le(both, cp, n);
}

/// Relies on petgraph's `algo::maximum_matching` (Gabow's algorithm) run on the
/// undirected `Graph` that `Graph::from_edges` builds from `edges`, and on
/// `Matching::edges`, which reports each matched pair once as `(a, b)` with
/// `a < b`. Every reported pair is an edge of the graph, and no node is in two
/// pairs. Node indices must stay below `usize::MAX - 1`, where petgraph panics.
#[verifier::external_body]
fn petgraph_maximum_matching(edges: &Vec<(usize, usize)>) -> (m: Vec<(usize, usize)>)
    requires
        forall|k: int| 0 <= k < edges.len() ==> #[trigger] edges@[k].0 < usize::MAX - 1 && edges@[k].1 < usize::MAX - 1,
    ensures
        forall|k: int|
            0 <= k < m.len() ==> #[trigger] m@[k].0 < m@[k].1 && (edges@.contains((m@[k].0, m@[k].1))
                || edges@.contains((m@[k].1, m@[k].0))),
        forall|k1: int, k2: int|
            0 <= k1 < m.len() && 0 <= k2 < m.len() && k1 != k2 ==> #[trigger] m@[k1].0 != #[trigger] m@[k2].0
                && m@[k1].0 != m@[k2].1 && m@[k1].1 != m@[k2].0 && m@[k1].1 != m@[k2].1,
{
    let g = petgraph::graph::UnGraph::<(), (), usize>::from_edges(edges.iter().copied());
    petgraph::algo::maximum_matching(&g).edges().map(|(a, b)| (a.index(), b.index())).collect()
}

/// A maximum matching of the equality subgraph from petgraph, as mate tables:
/// agent `i` is node `i` and task `j` is node `n + j`.
fn seed_matching(g: &EqualityGraph, edges: &Vec<(usize, usize)>) -> (res: (Vec<Option<usize>>, Vec<Option<usize>>))
    requires
        g.wf(),
        g.n <= MAX_DIM,
        forall|k: int| 0 <= k < edges.len() ==> g.has_edge(#[trigger] edges@[k].0 as int, edges@[k].1 as int),
    ensures
        is_matching(*g, res.0@, res.1@),
{
    let n = g.n;
    let mut nodes: Vec<(usize, usize)> = Vec::new();
    let mut k: usize = 0;
    while k < edges.len()
        invariant
            g.wf(),
            n == g.n,
            n <= MAX_DIM,
            forall|l: int| 0 <= l < edges.len() ==> g.has_edge(#[trigger] edges@[l].0 as int, edges@[l].1 as int),
            k <= edges.len(),
            nodes.len() == k,
            forall|l: int| 0 <= l < k ==> #[trigger] nodes@[l] == (edges@[l].0, (n + edges@[l].1) as usize),
        decreases edges.len() - k,
    {
        let (i, j) = edges[k];
        assert(g.has_edge(i as int, j as int));
        nodes.push((i, n + j));
        k += 1;
    }
    assert forall|l: int| 0 <= l < nodes.len() implies #[trigger] nodes@[l].0 < usize::MAX - 1 && nodes@[l].1 < usize::MAX
        - 1 by {
        assert(g.has_edge(edges@[l].0 as int, edges@[l].1 as int));
    }
    let m = petgraph_maximum_matching(&nodes);
    let mut pairs: Vec<(usize, usize)> = Vec::new();
    let mut p: usize = 0;
    while p < m.len()
        invariant
            g.wf(),
            n == g.n,
            n <= MAX_DIM,
            forall|l: int| 0 <= l < edges.len() ==> g.has_edge(#[trigger] edges@[l].0 as int, edges@[l].1 as int),
            nodes.len() == edges.len(),
            forall|l: int| 0 <= l < nodes.len() ==> #[trigger] nodes@[l] == (edges@[l].0, (n + edges@[l].1) as usize),
            forall|l: int|
                0 <= l < m.len() ==> #[trigger] m@[l].0 < m@[l].1 && (nodes@.contains((m@[l].0, m@[l].1))
                    || nodes@.contains((m@[l].1, m@[l].0))),
            p <= m.len(),
            pairs.len() == p,
            forall|l: int| 0 <= l < p ==> #[trigger] pairs@[l] == (m@[l].0, (m@[l].1 - n) as usize) && m@[l].0 < n && n <= m@[l].1,
            forall|l: int| 0 <= l < p ==> g.has_edge(#[trigger] pairs@[l].0 as int, pairs@[l].1 as int),
        decreases m.len() - p,
    {
        let (a, b) = m[p];
        proof {
            if nodes@.contains((a, b)) {
                let l = choose|l: int| 0 <= l < nodes.len() && nodes@[l] == (a, b);
                assert(g.has_edge(edges@[l].0 as int, edges@[l].1 as int));
            } else {
                let l = choose|l: int| 0 <= l < nodes.len() && nodes@[l] == (b, a);
                assert(g.has_edge(edges@[l].0 as int, edges@[l].1 as int));
            }
        }
        pairs.push((a, b - n));
        p += 1;
    }
    proof {
        assert forall|k1: int, k2: int|
            0 <= k1 < pairs.len() && 0 <= k2 < pairs.len() && k1 != k2 implies #[trigger] pairs@[k1].0
            != #[trigger] pairs@[k2].0 && pairs@[k1].1 != pairs@[k2].1 by {
            assert(pairs@[k1] == (m@[k1].0, (m@[k1].1 - n) as usize));
            assert(pairs@[k2] == (m@[k2].0, (m@[k2].1 - n) as usize));
        }
        assert(is_matching_list(*g, pairs@));
    }
    match mates_from_pairs(g, &pairs) {
        Some(mates) => mates,
        None => {
            proof {
                assert(false);
            }
            (Vec::new(), Vec::new())
        },
    }
}

/// Mate tables of a matching made of zero pairs.
pub open spec fn is_zero_matching(
    c: Seq<Vec<i32>>,
    u: Seq<i64>,
    v: Seq<i64>,
    row_mate: Seq<Option<usize>>,
    col_mate: Seq<Option<usize>>,
) -> bool {
    let n = c.len() as int;
    &&& row_mate.len() == n
    &&& col_mate.len() == n
    &&& forall|i: int|
        0 <= i < n && (#[trigger] row_mate[i]) is Some ==> {
            let j = row_mate[i]->0;
            &&& j < n
            &&& col_mate[j as int] == Some(i as usize)
            &&& is_zero_pair(c, u, v, i, j as int)
        }
    &&& forall|j: int|
        0 <= j < n && (#[trigger] col_mate[j]) is Some ==> {
            let i = col_mate[j]->0;
            &&& i < n
            &&& row_mate[i as int] == Some(j as usize)
        }
}

/// The edges of `g` are the zero pairs of the duals.
pub open spec fn graph_of(g: EqualityGraph, c: Seq<Vec<i32>>, u: Seq<i64>, v: Seq<i64>) -> bool {
    &&& g.wf()
    &&& g.n == c.len()
    &&& forall|i: int, j: int| #[trigger] g.has_edge(i, j) <==> is_zero_pair(c, u, v, i, j)
}

/// A matching of zero pairs is a matching of the equality subgraph.
proof fn lemma_zero_matching_in_graph(
    c: Seq<Vec<i32>>,
    u: Seq<i64>,
    v: Seq<i64>,
    g: EqualityGraph,
    rm: Seq<Option<usize>>,
    cm: Seq<Option<usize>>,
)
    requires
        graph_of(g, c, u, v),
        is_zero_matching(c, u, v, rm, cm),
    ensures
        is_matching(g, rm, cm),
{
    assert forall|i: int| 0 <= i < g.n && (#[trigger] rm[i]) is Some implies g.has_edge(i, rm[i]->0 as int) by {
        assert(is_zero_pair(c, u, v, i, rm[i]->0 as int));
    }
}

/// The dual step keeps every matched pair at zero reduced cost: a matched
/// agent is blue exactly when its task is red.
proof fn lemma_matching_survives_step(
    c: Seq<Vec<i32>>,
    u: Seq<i64>,
    v: Seq<i64>,
    u2: Seq<i64>,
    v2: Seq<i64>,
    eps: int,
    g: EqualityGraph,
    rm: Seq<Option<usize>>,
    cm: Seq<Option<usize>>,
    f: Forest,
)
    requires
        graph_of(g, c, u, v),
        is_matching(g, rm, cm),
        forest_ok(g, rm, cm, f),
        u2.len() == c.len(),
        v2.len() == c.len(),
        forall|i: int| 0 <= i < c.len() ==> #[trigger] u2[i] == u[i] + if f.blue@[i] { eps } else { 0 },
        forall|j: int| 0 <= j < c.len() ==> #[trigger] v2[j] == v[j] - if f.red@[j] { eps } else { 0 },
    ensures
        is_zero_matching(c, u2, v2, rm, cm),
{
    assert forall|i: int| 0 <= i < c.len() && (#[trigger] rm[i]) is Some implies is_zero_pair(c, u2, v2, i, rm[i]->0 as int) by {
        let j = rm[i]->0 as int;
        assert(g.has_edge(i, j));
        assert(f.blue@[i] == f.red@[j]) by {
            if f.red@[j] {
                assert(cm[j] == Some(i as usize));
            }
        }
    }
}

/// An agent that was blue in one phase is blue in the next phase over the
/// same matching, after a dual step: its tree path survives the step.
proof fn lemma_blue_stays_blue(
    c: Seq<Vec<i32>>,
    u: Seq<i64>,
    v: Seq<i64>,
    u2: Seq<i64>,
    v2: Seq<i64>,
    eps: int,
    g: EqualityGraph,
    g2: EqualityGraph,
    rm: Seq<Option<usize>>,
    cm: Seq<Option<usize>>,
    f: Forest,
    f2: Forest,
    i: int,
)
    requires
        graph_of(g, c, u, v),
        graph_of(g2, c, u2, v2),
        is_matching(g, rm, cm),
        forest_ok(g, rm, cm, f),
        forest_ok(g2, rm, cm, f2),
        forest_is_cover(g2, rm, f2),
        u.len() == c.len(),
        v.len() == c.len(),
        u2.len() == c.len(),
        v2.len() == c.len(),
        forall|a: int| 0 <= a < c.len() ==> #[trigger] u2[a] == u[a] + if f.blue@[a] { eps } else { 0 },
        forall|b: int| 0 <= b < c.len() ==> #[trigger] v2[b] == v[b] - if f.red@[b] { eps } else { 0 },
        0 <= i < c.len(),
        f.blue@[i],
    ensures
        f2.blue@[i],
    decreases f.depth@[i],
{
    if rm[i] is Some {
        let t = rm[i]->0 as int;
        assert(f.red@[t]);
        assert(cm[t] == Some(i as usize));
        let p = f.parent@[t] as int;
        assert(f.blue@[p]);
        assert(f.depth@[p] < f.depth@[i]);
        lemma_blue_stays_blue(c, u, v, u2, v2, eps, g, g2, rm, cm, f, f2, p);
        assert(g.has_edge(p, t));
        assert(is_zero_pair(c, u, v, p, t));
        assert(is_zero_pair(c, u2, v2, p, t));
        assert(g2.has_edge(p, t));
        assert(f2.red@[t]);
    }
}

/// A snapshot assembled from one iteration's values is consistent.
proof fn lemma_snapshot(c: Seq<Vec<i32>>, g: EqualityGraph, s: ProblemState)
    requires
        is_square(c),
        feasible(c, s.u@, s.v@),
        is_square_i64(s.reduced@, c.len() as int),
        forall|i: int, j: int|
            0 <= i < c.len() && 0 <= j < c.len() ==> #[trigger] s.reduced@[i]@[j] == reduced_cost(c, s.u@, s.v@, i, j),
        g.wf(),
        g.n == c.len(),
        forall|i: int, j: int|
            0 <= i < c.len() && 0 <= j < c.len() ==> (#[trigger] g.has_edge(i, j) <==> s.reduced@[i]@[j] == 0),
        forall|k: int| 0 <= k < s.edges.len() ==> g.has_edge(#[trigger] s.edges@[k].0 as int, s.edges@[k].1 as int),
        forall|i: int, j: int| #[trigger] g.has_edge(i, j) ==> s.edges@.contains((i as usize, j as usize)),
        is_matching_list(g, s.matching@),
        is_vertex_cover(g, s.cover@),
        s.cover.len() == s.matching.len(),
    ensures
        snapshot_ok(c, s),
{
    let n = c.len() as int;
    let u = s.u@;
    let v = s.v@;
    assert forall|i: int, j: int| #[trigger] is_zero_pair(c, u, v, i, j) implies g.has_edge(i, j) by {
        assert(s.reduced@[i]@[j] == reduced_cost(c, u, v, i, j));
    }
    assert forall|i: int, j: int| #[trigger] is_zero_pair(c, u, v, i, j) implies s.cover@.contains(Node::Agent(i as usize))
        || s.cover@.contains(Node::Task(j as usize)) by {
        assert(g.has_edge(i, j));
    }
    assert forall|k: int| 0 <= k < s.edges.len() implies is_zero_pair(c, u, v, #[trigger] s.edges@[k].0 as int, s.edges@[k].1 as int) by {
        let i = s.edges@[k].0 as int;
        let j = s.edges@[k].1 as int;
        assert(g.has_edge(i, j));
        assert(s.reduced@[i]@[j] == reduced_cost(c, u, v, i, j));
    }
    assert forall|k: int| 0 <= k < s.matching.len() implies is_zero_pair(c, u, v, #[trigger] s.matching@[k].0 as int, s.matching@[k].1 as int) by {
        let i = s.matching@[k].0 as int;
        let j = s.matching@[k].1 as int;
        assert(g.has_edge(i, j));
        assert(s.reduced@[i]@[j] == reduced_cost(c, u, v, i, j));
    }
}

/// Runs the driver from feasible starting duals until the matching is perfect.
/// The first matching comes from petgraph; each later search starts from the
/// previous matching, which the dual step keeps. Between two iterations the
/// matching grows or, with the same matching, the blue agents grow, so there
/// are at most `n * n + 1` iterations. Each equality subgraph is first checked
/// to be bipartite, and each dual step needs an uncovered pair; neither check
/// can fail, as the proof shows.
fn run(c: &Vec<Vec<i32>>, u_start: Vec<i64>, v_start: Vec<i64>) -> (res: Result<Vec<ProblemState>, AssignmentError>)
    requires
        is_square(c@),
        0 < c.len() <= MAX_DIM,
        feasible(c@, u_start@, v_start@),
        bounded(u_start@, START_U_BOUND as int),
        bounded(v_start@, START_V_BOUND as int),
    ensures
        res matches Ok(trace) && is_solution_trace(c@, trace@) && trace@[0].u@ == u_start@ && trace@[0].v@ == v_start@
            && trace.len() <= potential(c@, u_start@, v_start@) + 1 && trace.len() <= c.len() * c.len() + 1,
{
    let n = c.len();
    let ghost u0 = u_start@;
    let ghost v0 = v_start@;
    let ghost pot_start = potential(c@, u0, v0);
    proof {
        lemma_potential_bounds(c@, u0, v0);
    }
    let mut u = u_start;
    let mut v = v_start;
    let mut trace: Vec<ProblemState> = Vec::new();
    let mut carried: Option<(Vec<Option<usize>>, Vec<Option<usize>>)> = None;
    let ghost mut prev_u: Seq<i64> = u0;
    let ghost mut prev_v: Seq<i64> = v0;
    let ghost mut prev_g: EqualityGraph = arbitrary();
    let ghost mut prev_f: Forest = arbitrary();
    let ghost mut step: int = 0;
    let ghost mut wi: int = 0;
    let ghost mut wj: int = 0;
    let ghost mut rank: int = 0;
    loop
        invariant
            is_square(c@),
            n == c.len(),
            0 < n <= MAX_DIM,
            u0 == u_start@,
            v0 == v_start@,
            u0.len() == n,
            v0.len() == n,
            bounded(u0, START_U_BOUND as int),
            bounded(v0, START_V_BOUND as int),
            feasible(c@, u@, v@),
            0 <= pot_start <= POTENTIAL_BOUND,
            pot_start == potential(c@, u0, v0),
            0 <= potential(c@, u@, v@) <= pot_start,
            forall|i: int| 0 <= i < n ==> u0[i] <= #[trigger] u@[i] <= u0[i] + (pot_start - potential(c@, u@, v@)),
            forall|j: int| 0 <= j < n ==> v0[j] - (pot_start - potential(c@, u@, v@)) <= #[trigger] v@[j] <= v0[j],
            forall|k: int| 0 <= k < trace.len() ==> snapshot_ok(c@, #[trigger] trace@[k]) && trace@[k].matching.len() < n,
            forall|k: int|
                0 <= k < trace.len() - 1 ==> #[trigger] is_progress(
                    c@,
                    trace@[k].u@,
                    trace@[k].v@,
                    trace@[k + 1].u@,
                    trace@[k + 1].v@,
                ),
            trace.len() > 0 ==> is_progress(c@, trace@.last().u@, trace@.last().v@, u@, v@),
            trace.len() == 0 ==> u@ == u0 && v@ == v0,
            trace.len() > 0 ==> trace@[0].u@ == u0 && trace@[0].v@ == v0,
            trace.len() <= pot_start - potential(c@, u@, v@),
            trace.len() == 0 <==> carried is None,
            carried matches Some((rm, cm)) ==> {
                &&& graph_of(prev_g, c@, prev_u, prev_v)
                &&& is_matching(prev_g, rm@, cm@)
                &&& forest_ok(prev_g, rm@, cm@, prev_f)
                &&& prev_u.len() == n
                &&& prev_v.len() == n
                &&& forall|i: int| 0 <= i < n ==> #[trigger] u@[i] == prev_u[i] + if prev_f.blue@[i] { step } else { 0 }
                &&& forall|j: int| 0 <= j < n ==> #[trigger] v@[j] == prev_v[j] - if prev_f.red@[j] { step } else { 0 }
                &&& 0 <= wi < n
                &&& 0 <= wj < n
                &&& prev_f.blue@[wi]
                &&& !prev_f.red@[wj]
                &&& is_zero_pair(c@, u@, v@, wi, wj)
                &&& is_zero_matching(c@, u@, v@, rm@, cm@)
                &&& matching_size(rm@) < n
                &&& rank == matching_size(rm@) * n + count_true(prev_f.blue@) - 1
                &&& trace.len() <= rank + 1
                &&& 0 <= rank <= n * n - 1
            },
        decreases potential(c@, u@, v@),
    {
        assert(bounded(u@, DUAL_BOUND as int));
        assert(bounded(v@, DUAL_BOUND as int));
        let r = reduced_costs(c, &u, &v);
        let g = generate_equality_graph(&r);
        let view = g.to_undirected();
        proof {
            lemma_equality_graph_bipartite(g, view);
        }
        if bipartite_undirected(&view).is_none() {
            return Err(AssignmentError::NotBipartite);
        }
        let edges = g.edges();
        proof {
            assert forall|i: int, j: int| #[trigger] g.has_edge(i, j) <==> is_zero_pair(c@, u@, v@, i, j) by {
                if 0 <= i < n && 0 <= j < n {
                    assert(r@[i]@[j] == reduced_cost(c@, u@, v@, i, j));
                }
            }
        }
        let ghost was_carried = carried is Some;
        let ghost old_carried = carried;
        let (rm_in, cm_in) = match carried {
            None => seed_matching(&g, &edges),
            Some(mates) => {
                proof {
                    lemma_zero_matching_in_graph(c@, u@, v@, g, mates.0@, mates.1@);
                }
                mates
            },
        };
        let ghost rm_prev = rm_in@;
        let ghost cm_prev = cm_in@;
        let (rm, cm, f) = hungarian_search(&g, rm_in, cm_in);
        let m = pairs_from_mates(&g, &rm, &cm);
        let cover = cover_nodes(n, &f.blue, &f.red);
        proof {
            lemma_count_true_bounds(matched_flags(rm@));
            assert forall|i: int, j: int| #[trigger] g.has_edge(i, j) implies cover@.contains(Node::Agent(i as usize))
                || cover@.contains(Node::Task(j as usize)) by {
                if f.blue@[i] {
                    assert(f.red@[j]);
                }
            }
        }
        let ghost ug = u@;
        let ghost vg = v@;
        if m.len() == n {
            let s = ProblemState { u, v, reduced: r, edges, matching: m, cover };
            proof {
                lemma_snapshot(c@, g, s);
                lemma_perfect_matching(c@, ug, vg, s.matching@);
            }
            proof {
                if was_carried {
                    assert(trace.len() <= rank + 1);
                }
                assert(n * n >= 1) by (nonlinear_arith)
                    requires
                        n >= 1,
                ;
            }
            let ghost before = trace@;
            trace.push(s);
            proof {
                assert forall|k: int| 0 <= k < trace.len() - 1 implies (#[trigger] trace@[k]).matching.len() < n
                    && is_progress(c@, trace@[k].u@, trace@[k].v@, trace@[k + 1].u@, trace@[k + 1].v@) by {
                    assert(trace@[k] == before[k]);
                    if k < trace.len() - 2 {
                        assert(is_progress(c@, before[k].u@, before[k].v@, before[k + 1].u@, before[k + 1].v@));
                    }
                }
                assert forall|k: int| 0 <= k < trace.len() implies snapshot_ok(c@, #[trigger] trace@[k]) by {
                    if k < trace.len() - 1 {
                        assert(trace@[k] == before[k]);
                    }
                }
            }
            return Ok(trace);
        }
        proof {
            lemma_count_true_bounds(f.blue@);
            lemma_count_true_bounds(f.red@);
            lemma_count_true_witness(f.blue@);
            lemma_count_false_witness(f.red@);
        }
        assert forall|i: int, j: int| 0 <= i < n && 0 <= j < n implies -REDUCED_BOUND <= #[trigger] r@[i]@[j] <= REDUCED_BOUND by {
            assert(r@[i]@[j] == reduced_cost(c@, u@, v@, i, j));
            assert(c@[i]@.len() == n);
        }
        match update_duals(&r, &f.blue, &f.red, &u, &v) {
            Err(e) => {
                return Err(e);
            },
            Ok((u2, v2, eps)) => {
                let ghost pot = potential(c@, u@, v@);
                proof {
                    let (wi, wj) = choose|wi: int, wj: int|
                        0 <= wi < n && 0 <= wj < n && f.blue@[wi] && !f.red@[wj] && eps == #[trigger] r@[wi]@[wj];
                    assert(r@[wi]@[wj] == reduced_cost(c@, u@, v@, wi, wj));
                    assert(!g.has_edge(wi, wj));
                    assert(u@[wi] + v@[wj] <= cost(c@, wi, wj));
                    assert(eps >= 1);
                    assert forall|i: int, j: int|
                        0 <= i < n && 0 <= j < n && f.blue@[i] && !f.red@[j] implies eps <= #[trigger] reduced_cost(c@, u@, v@, i, j) by {
                        assert(r@[i]@[j] == reduced_cost(c@, u@, v@, i, j));
                    }
                    lemma_dual_step(c@, u@, v@, u2@, v2@, f.blue@, f.red@, eps as int, matching_size(rm@));
                    lemma_potential_nonnegative(c@, u2@, v2@);
                    assert(reduced_cost(c@, u2@, v2@, wi, wj) == 0);
                    assert(is_progress(c@, u@, v@, u2@, v2@));
                    assert forall|i: int| 0 <= i < n implies u0[i] <= #[trigger] u2@[i] <= u0[i] + (pot_start - potential(c@, u2@, v2@)) by {
                        assert(u@[i] <= u0[i] + (pot_start - pot));
                    }
                    assert forall|j: int| 0 <= j < n implies v0[j] - (pot_start - potential(c@, u2@, v2@)) <= #[trigger] v2@[j] <= v0[j] by {
                        assert(v0[j] - (pot_start - pot) <= v@[j]);
                    }
                }
                let s = ProblemState { u, v, reduced: r, edges, matching: m, cover };
                proof {
                    lemma_snapshot(c@, g, s);
                }
                let ghost before = trace@;
                trace.push(s);
                proof {
                    assert forall|k: int| 0 <= k < trace.len() - 1 implies #[trigger] is_progress(
                        c@,
                        trace@[k].u@,
                        trace@[k].v@,
                        trace@[k + 1].u@,
                        trace@[k + 1].v@,
                    ) by {
                        assert(trace@[k] == before[k]);
                        if k < trace.len() - 2 {
                            assert(trace@[k + 1] == before[k + 1]);
                        }
                    }
                    assert forall|k: int| 0 <= k < trace.len() implies snapshot_ok(c@, #[trigger] trace@[k])
                        && trace@[k].matching.len() < n by {
                        if k < trace.len() - 1 {
                            assert(trace@[k] == before[k]);
                        }
                    }
                }
                proof {
                    lemma_matching_survives_step(c@, ug, vg, u2@, v2@, eps as int, g, rm@, cm@, f);
                    let ms = matching_size(rm@);
                    let cb = count_true(f.blue@);
                    lemma_count_true_bounds(f.blue@);
                    assert(ms < n);
                    assert(cb >= 1);
                    assert(ms * n + cb - 1 <= n * n - 1) by (nonlinear_arith)
                        requires
                            0 <= ms <= n - 1,
                            cb <= n,
                    ;
                    assert(ms * n >= 0) by (nonlinear_arith)
                        requires
                            ms >= 0,
                            n >= 0,
                    ;
                    if was_carried {
                        let (rm_vec, cm_vec) = old_carried->0;
                        let rm_old = rm_vec@;
                        let cm_old = cm_vec@;
                        assert(rm_prev == rm_old && cm_prev == cm_old);
                        let ms_old = matching_size(rm_old);
                        let cb_old = count_true(prev_f.blue@);
                        lemma_count_true_bounds(prev_f.blue@);
                        if ms == ms_old {
                            assert(rm@ == rm_old && cm@ == cm_old);
                            assert forall|i: int| 0 <= i < n && #[trigger] prev_f.blue@[i] implies f.blue@[i] by {
                                lemma_blue_stays_blue(c@, prev_u, prev_v, ug, vg, step, prev_g, g, rm@, cm@, prev_f, f, i);
                            }
                            lemma_blue_stays_blue(c@, prev_u, prev_v, ug, vg, step, prev_g, g, rm@, cm@, prev_f, f, wi);
                            assert(g.has_edge(wi, wj));
                            assert(f.red@[wj]);
                            let a = cm@[wj]->0 as int;
                            assert(f.blue@[a]);
                            assert(rm@[a] == Some(wj as usize));
                            assert(!prev_f.blue@[a]);
                            lemma_count_true_grows(prev_f.blue@, f.blue@, a);
                        } else {
                            assert(ms >= ms_old + 1);
                            assert(ms * n >= ms_old * n + n) by (nonlinear_arith)
                                requires
                                    ms >= ms_old + 1,
                                    n >= 0,
                            ;
                        }
                        assert(ms * n + cb - 1 >= rank + 1);
                    }
                }
                proof {
                    prev_u = ug;
                    prev_v = vg;
                    prev_g = g;
                    prev_f = f;
                    step = eps as int;
                    let (a, b) = choose|a: int, b: int|
                        0 <= a < n && 0 <= b < n && f.blue@[a] && !f.red@[b] && eps == #[trigger] r@[a]@[b];
                    wi = a;
                    wj = b;
                    assert(r@[a]@[b] == reduced_cost(c@, ug, vg, a, b));
                    assert(is_zero_pair(c@, u2@, v2@, a, b));
                    rank = matching_size(rm@) * n + count_true(f.blue@) - 1;
                }
                u = u2;
                v = v2;
                carried = Some((rm, cm));
            },
        }
    }
}

/// Solves the assignment problem for the cost matrix `c`. An empty seed means
/// that the dual is derived: `u` from the row minima, `v` from the column
/// minima of `c[i][j] - u[i]`. Returns the trace of every iteration; the last
/// snapshot's matching is a minimum-cost perfect assignment.
pub fn solve(c: &Vec<Vec<i32>>, u_seed: &Vec<i32>, v_seed: &Vec<i32>) -> (res: Result<Vec<ProblemState>, AssignmentError>)
    ensures
        input_error(c@, u_seed@, v_seed@) matches Some(e) ==> res == Err::<Vec<ProblemState>, AssignmentError>(
            AssignmentError::Input(e),
        ),
        input_error(c@, u_seed@, v_seed@) is None ==> {
            &&& res is Err <==> forall|u: Seq<i64>, v: Seq<i64>| #[trigger] is_start(c@, u_seed@, v_seed@, u, v) ==> !feasible(c@, u, v)
            &&& res is Err ==> res == Err::<Vec<ProblemState>, AssignmentError>(AssignmentError::Input(InputError::InfeasibleDuals))
        },
        res matches Ok(t) ==> {
            &&& is_solution_trace(c@, t@)
            &&& is_start(c@, u_seed@, v_seed@, t@[0].u@, t@[0].v@)
            &&& t.len() <= potential(c@, t@[0].u@, t@[0].v@) + 1
            &&& t.len() <= c.len() * c.len() + 1
        },
{
    match validate(c, u_seed, v_seed) {
        Some(e) => Err(AssignmentError::Input(e)),
        None => match start_duals(c, u_seed, v_seed) {
            Err(e) => Err(e),
            Ok((u, v)) => run(c, u, v),
        },
    }
}

/// The total cost of a list of pairs, computed.
fn total_cost(c: &Vec<Vec<i32>>, m: &Vec<(usize, usize)>) -> (t: i64)
    requires
        is_square(c@),
        c.len() <= MAX_DIM,
        m.len() <= c.len(),
        forall|k: int| 0 <= k < m.len() ==> #[trigger] m@[k].0 < c.len() && m@[k].1 < c.len(),
    ensures
        t == matching_cost(c@, m@),
{
    let ghost mc = |k: int| cost(c@, m@[k].0 as int, m@[k].1 as int);
    let mut t: i64 = 0;
    let mut k: usize = 0;
    while k < m.len()
        invariant
            is_square(c@),
            c.len() <= MAX_DIM,
            m.len() <= c.len(),
            forall|l: int| 0 <= l < m.len() ==> #[trigger] m@[l].0 < c.len() && m@[l].1 < c.len(),
            mc == (|l: int| cost(c@, m@[l].0 as int, m@[l].1 as int)),
            k <= m.len(),
            t == sum_range(mc, k as int),
            -(k as int) * 2147483648 <= t <= (k as int) * 2147483648,
        decreases m.len() - k,
    {
        let (a, b) = m[k];
        assert(c@[a as int]@.len() == c.len());
        t = t + c[a][b] as i64;
        k += 1;
    }
    t
}

/// A solver session: the problem as given, then the trace of the solve.
pub struct OptimalSolution {
    pub cost: Vec<Vec<i32>>,
    pub u_seed: Vec<i32>,
    pub v_seed: Vec<i32>,
    pub states: Vec<ProblemState>,
}

impl OptimalSolution {
    /// A session with no problem and no trace.
    pub fn new() -> (s: Self)
        ensures
            s.cost@.len() == 0,
            s.u_seed@.len() == 0,
            s.v_seed@.len() == 0,
            s.states@.len() == 0,
    {
        OptimalSolution { cost: Vec::new(), u_seed: Vec::new(), v_seed: Vec::new(), states: Vec::new() }
    }

    /// Records the problem: the seeded duals (empty when to be derived) and the
    /// cost matrix. Any earlier trace is dropped.
    pub fn init(&mut self, u_invec: Vec<i32>, v_invec: Vec<i32>, c: Vec<Vec<i32>>)
        ensures
            final(self).cost@ == c@,
            final(self).u_seed@ == u_invec@,
            final(self).v_seed@ == v_invec@,
            final(self).states@.len() == 0,
    {
        self.cost = c;
        self.u_seed = u_invec;
        self.v_seed = v_invec;
        self.states = Vec::new();
    }

    /// Solves the recorded problem, keeps the trace in `states` and returns the
    /// optimal total cost. On an error `states` is left empty.
    pub fn find_optimum_cost(&mut self) -> (res: Result<i64, AssignmentError>)
        ensures
            final(self).cost@ == old(self).cost@,
            final(self).u_seed@ == old(self).u_seed@,
            final(self).v_seed@ == old(self).v_seed@,
            input_error(old(self).cost@, old(self).u_seed@, old(self).v_seed@) matches Some(e) ==> res == Err::<
                i64,
                AssignmentError,
            >(AssignmentError::Input(e)),
            input_error(old(self).cost@, old(self).u_seed@, old(self).v_seed@) is None ==> {
                &&& res is Err <==> forall|u: Seq<i64>, v: Seq<i64>|
                    #[trigger] is_start(old(self).cost@, old(self).u_seed@, old(self).v_seed@, u, v) ==> !feasible(
                        old(self).cost@,
                        u,
                        v,
                    )
                &&& res is Err ==> res == Err::<i64, AssignmentError>(AssignmentError::Input(InputError::InfeasibleDuals))
            },
            res is Err ==> final(self).states@.len() == 0,
            res matches Ok(total) ==> {
                &&& is_solution_trace(final(self).cost@, final(self).states@)
                &&& is_start(
                    final(self).cost@,
                    final(self).u_seed@,
                    final(self).v_seed@,
                    final(self).states@[0].u@,
                    final(self).states@[0].v@,
                )
                &&& total == matching_cost(final(self).cost@, final(self).states@.last().matching@)
                &&& final(self).states.len() <= final(self).cost.len() * final(self).cost.len() + 1
            },
    {
        match solve(&self.cost, &self.u_seed, &self.v_seed) {
            Err(e) => {
                self.states = Vec::new();
                Err(e)
            },
            Ok(trace) => {
                let last = trace.len() - 1;
                let ghost lm = trace@[last as int].matching@;
                proof {
                    assert(snapshot_ok(self.cost@, trace@[last as int]));
                    assert forall|k: int| 0 <= k < lm.len() implies #[trigger] lm[k].0 < self.cost.len() && lm[k].1 < self.cost.len() by {
                        assert(is_zero_pair(self.cost@, trace@[last as int].u@, trace@[last as int].v@, lm[k].0 as int, lm[k].1 as int));
                    }
                }
                let total = total_cost(&self.cost, &trace[last].matching);
                self.states = trace;
                Ok(total)
            },
        }
    }
}

} // verus!
