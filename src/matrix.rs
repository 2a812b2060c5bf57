//! Square cost matrices, dual potentials and reduced costs.
use vstd::prelude::*;

verus! {

/// Largest number of agents (and of tasks) the solver accepts.
pub const MAX_DIM: usize = 1048576;

/// Bound on the magnitude of dual potentials handed to the arithmetic here.
pub const DUAL_BOUND: i64 = 1152921504606846976;

/// Every row has as many entries as there are rows.
pub open spec fn is_square(c: Seq<Vec<i32>>) -> bool {
    forall|i: int| 0 <= i < c.len() ==> #[trigger] c[i]@.len() == c.len()
}

/// Every row of `m` has `n` entries, and there are `n` rows.
pub open spec fn is_square_i64(m: Seq<Vec<i64>>, n: int) -> bool {
    m.len() == n && forall|i: int| 0 <= i < n ==> #[trigger] m[i]@.len() == n
}

/// Cost of giving task `j` to agent `i`.
pub open spec fn cost(c: Seq<Vec<i32>>, i: int, j: int) -> int {
    c[i]@[j] as int
}

/// `c[i][j] - u[i] - v[j]`.
pub open spec fn reduced_cost(c: Seq<Vec<i32>>, u: Seq<i64>, v: Seq<i64>, i: int, j: int) -> int {
    cost(c, i, j) - u[i] - v[j]
}

/// The duals have the matrix's dimension and `u[i] + v[j] <= c[i][j]` everywhere.
pub open spec fn feasible(c: Seq<Vec<i32>>, u: Seq<i64>, v: Seq<i64>) -> bool {
    &&& u.len() == c.len()
    &&& v.len() == c.len()
    &&& forall|i: int, j: int|
        0 <= i < c.len() && 0 <= j < c.len() ==> u[i] + v[j] <= #[trigger] cost(c, i, j)
}

/// Every entry lies in `[-b, b]`.
pub open spec fn bounded(s: Seq<i64>, b: int) -> bool {
    forall|k: int| 0 <= k < s.len() ==> -b <= #[trigger] s[k] <= b
}

/// `x` is the smallest entry of row `i`.
pub open spec fn is_row_minimum(c: Seq<Vec<i32>>, i: int, x: int) -> bool {
    &&& forall|j: int| 0 <= j < c.len() ==> x <= #[trigger] cost(c, i, j)
    &&& exists|j: int| 0 <= j < c.len() && x == #[trigger] cost(c, i, j)
}

/// `x` is the smallest `c[i][j] - u[i]` over the rows `i`.
pub open spec fn is_column_minimum(c: Seq<Vec<i32>>, u: Seq<i64>, j: int, x: int) -> bool {
    &&& forall|i: int| 0 <= i < c.len() ==> x <= #[trigger] cost(c, i, j) - u[i]
    &&& exists|i: int| 0 <= i < c.len() && x == #[trigger] cost(c, i, j) - u[i]
}

/// Seeds the agent duals: `u[i]` is the smallest entry of row `i`.
pub fn generate_u_vector(c: &Vec<Vec<i32>>) -> (u: Vec<i32>)
    requires
        c.len() > 0,
        is_square(c@),
    ensures
        u.len() == c.len(),
        forall|i: int| 0 <= i < c.len() ==> is_row_minimum(c@, i, #[trigger] u[i] as int),
{
    let n = c.len();
    let mut u: Vec<i32> = Vec::new();
    let mut i: usize = 0;
    while i < n
        invariant
            n == c.len(),
            n > 0,
            is_square(c@),
            i <= n,
            u.len() == i,
            forall|k: int| 0 <= k < i ==> is_row_minimum(c@, k, #[trigger] u[k] as int),
        decreases n - i,
    {
        let row = &c[i];
        assert(row@.len() == n);
        let mut m: i32 = row[0];
        let mut arg: usize = 0;
        let mut j: usize = 1;
        while j < n
            invariant
                row@.len() == n,
                1 <= j <= n,
                arg < n,
                m == row@[arg as int],
                forall|l: int| 0 <= l < j ==> m <= #[trigger] row@[l],
            decreases n - j,
        {
            if row[j] < m {
                m = row[j];
                arg = j;
            }
            j += 1;
        }
        assert(cost(c@, i as int, arg as int) == m);
        assert forall|l: int| 0 <= l < n implies m <= #[trigger] cost(c@, i as int, l) by {
            assert(row@[l] == c@[i as int]@[l]);
        }
        u.push(m);
        i += 1;
    }
    u
}

/// Seeds the task duals: `v[j]` is the smallest `c[i][j] - u[i]` over the rows.
pub fn generate_v_vector(c: &Vec<Vec<i32>>, u: &Vec<i64>) -> (v: Vec<i64>)
    requires
        c.len() > 0,
        is_square(c@),
        u.len() == c.len(),
        bounded(u@, DUAL_BOUND as int),
    ensures
        v.len() == c.len(),
        forall|j: int| 0 <= j < c.len() ==> is_column_minimum(c@, u@, j, #[trigger] v[j] as int),
{
    let n = c.len();
    let mut v: Vec<i64> = Vec::new();
    let mut j: usize = 0;
    while j < n
        invariant
            n == c.len(),
            n > 0,
            u.len() == n,
            bounded(u@, DUAL_BOUND as int),
            is_square(c@),
            j <= n,
            v.len() == j,
            forall|k: int| 0 <= k < j ==> is_column_minimum(c@, u@, k, #[trigger] v[k] as int),
        decreases n - j,
    {
        assert(c@[0]@.len() == n);
        let mut m: i64 = c[0][j] as i64 - u[0];
        let mut arg: usize = 0;
        let mut i: usize = 1;
        while i < n
            invariant
                n == c.len(),
                u.len() == n,
                bounded(u@, DUAL_BOUND as int),
                is_square(c@),
                j < n,
                1 <= i <= n,
                arg < n,
                m == cost(c@, arg as int, j as int) - u@[arg as int],
                forall|l: int| 0 <= l < i ==> m <= #[trigger] cost(c@, l, j as int) - u@[l],
            decreases n - i,
        {
            assert(c@[i as int]@.len() == n);
            let d: i64 = c[i][j] as i64 - u[i];
            if d < m {
                m = d;
                arg = i;
            }
            i += 1;
        }
        assert(cost(c@, arg as int, j as int) - u@[arg as int] == m);
        v.push(m);
        j += 1;
    }
    v
}

/// The reduced-cost matrix `c[i][j] - u[i] - v[j]`.
pub fn reduced_costs(c: &Vec<Vec<i32>>, u: &Vec<i64>, v: &Vec<i64>) -> (r: Vec<Vec<i64>>)
    requires
        is_square(c@),
        u.len() == c.len(),
        v.len() == c.len(),
        bounded(u@, DUAL_BOUND as int),
        bounded(v@, DUAL_BOUND as int),
    ensures
        is_square_i64(r@, c.len() as int),
        forall|i: int, j: int|
            0 <= i < c.len() && 0 <= j < c.len() ==> #[trigger] r@[i]@[j] == reduced_cost(
                c@,
                u@,
                v@,
                i,
                j,
            ),
{
    let n = c.len();
    let mut r: Vec<Vec<i64>> = Vec::new();
    let mut i: usize = 0;
    while i < n
        invariant
            n == c.len(),
            u.len() == n,
            v.len() == n,
            is_square(c@),
            bounded(u@, DUAL_BOUND as int),
            bounded(v@, DUAL_BOUND as int),
            i <= n,
            r.len() == i,
            forall|k: int| 0 <= k < i ==> #[trigger] r@[k]@.len() == n,
            forall|k: int, j: int|
                0 <= k < i && 0 <= j < n ==> #[trigger] r@[k]@[j] == reduced_cost(c@, u@, v@, k, j),
        decreases n - i,
    {
        assert(c@[i as int]@.len() == n);
        let mut row: Vec<i64> = Vec::new();
        let mut j: usize = 0;
        while j < n
            invariant
                n == c.len(),
                u.len() == n,
                v.len() == n,
                is_square(c@),
                bounded(u@, DUAL_BOUND as int),
                bounded(v@, DUAL_BOUND as int),
                i < n,
                j <= n,
                row.len() == j,
                forall|l: int| 0 <= l < j ==> #[trigger] row@[l] == reduced_cost(c@, u@, v@, i as int, l),
            decreases n - j,
        {
            assert(c@[i as int]@.len() == n);
            let x: i64 = c[i][j] as i64 - u[i] - v[j];
            row.push(x);
            j += 1;
        }
        r.push(row);
        i += 1;
    }
    r
}

/// Whether the duals satisfy `u[i] + v[j] <= c[i][j]` for every pair.
pub fn is_feasible(c: &Vec<Vec<i32>>, u: &Vec<i64>, v: &Vec<i64>) -> (ok: bool)
    requires
        is_square(c@),
        u.len() == c.len(),
        v.len() == c.len(),
        bounded(u@, DUAL_BOUND as int),
        bounded(v@, DUAL_BOUND as int),
    ensures
        ok == feasible(c@, u@, v@),
{
    let n = c.len();
    let mut i: usize = 0;
    while i < n
        invariant
            n == c.len(),
            u.len() == n,
            v.len() == n,
            is_square(c@),
            bounded(u@, DUAL_BOUND as int),
            bounded(v@, DUAL_BOUND as int),
            i <= n,
            forall|k: int, j: int| 0 <= k < i && 0 <= j < n ==> u@[k] + v@[j] <= #[trigger] cost(c@, k, j),
        decreases n - i,
    {
        let mut j: usize = 0;
        while j < n
            invariant
                n == c.len(),
                u.len() == n,
                v.len() == n,
                is_square(c@),
                bounded(u@, DUAL_BOUND as int),
                bounded(v@, DUAL_BOUND as int),
                i < n,
                j <= n,
                forall|k: int, l: int| 0 <= k < i && 0 <= l < n ==> u@[k] + v@[l] <= #[trigger] cost(c@, k, l),
                forall|l: int| 0 <= l < j ==> u@[i as int] + v@[l] <= #[trigger] cost(c@, i as int, l),
            decreases n - j,
        {
            assert(c@[i as int]@.len() == n);
            if u[i] + v[j] > c[i][j] as i64 {
                assert(!feasible(c@, u@, v@)) by {
                    assert(u@[i as int] + v@[j as int] > cost(c@, i as int, j as int));
                }
                return false;
            }
            j += 1;
        }
        i += 1;
    }
    true
}

} // verus!
