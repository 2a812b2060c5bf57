//! The dual step: raise the duals along a minimum vertex cover.
use vstd::prelude::*;
use crate::error::AssignmentError;
use crate::matrix::{bounded, is_square_i64, DUAL_BOUND};

verus! {

/// Bound on the magnitude of the reduced costs the dual step reads.
pub const REDUCED_BOUND: i64 = 4611686018427387904;

/// Some agent is blue and some task is not red: the uncovered submatrix is not empty.
pub open spec fn has_uncovered_pair(blue: Seq<bool>, red: Seq<bool>) -> bool {
    (exists|i: int| 0 <= i < blue.len() && #[trigger] blue[i]) && (exists|j: int| 0 <= j < red.len() && !#[trigger] red[j])
}

/// `eps` is the smallest reduced cost over blue agents and tasks that are not red.
pub open spec fn is_uncovered_minimum(r: Seq<Vec<i64>>, blue: Seq<bool>, red: Seq<bool>, eps: int) -> bool {
    &&& forall|i: int, j: int|
        0 <= i < blue.len() && 0 <= j < red.len() && blue[i] && !red[j] ==> eps <= #[trigger] r[i]@[j]
    &&& exists|i: int, j: int|
        0 <= i < blue.len() && 0 <= j < red.len() && blue[i] && !red[j] && eps == #[trigger] r[i]@[j]
}

/// Computes epsilon, the smallest reduced cost over the uncovered pairs (blue
/// agent, task not red), then adds it to the duals of blue agents and takes it
/// from the duals of red tasks. Fails when there is no uncovered pair.
pub fn update_duals(r: &Vec<Vec<i64>>, blue: &Vec<bool>, red: &Vec<bool>, u: &Vec<i64>, v: &Vec<i64>) -> (res: Result<
    (Vec<i64>, Vec<i64>, i64),
    AssignmentError,
>)
    requires
        is_square_i64(r@, u.len() as int),
        blue.len() == u.len(),
        red.len() == u.len(),
        v.len() == u.len(),
        bounded(u@, DUAL_BOUND as int),
        bounded(v@, DUAL_BOUND as int),
        forall|i: int, j: int|
            0 <= i < u.len() && 0 <= j < u.len() ==> -REDUCED_BOUND <= #[trigger] r@[i]@[j] <= REDUCED_BOUND,
    ensures
        res is Err <==> !has_uncovered_pair(blue@, red@),
        res is Err ==> res == Err::<(Vec<i64>, Vec<i64>, i64), AssignmentError>(AssignmentError::InfeasibleState),
        res matches Ok((u2, v2, eps)) ==> {
            &&& is_uncovered_minimum(r@, blue@, red@, eps as int)
            &&& u2.len() == u.len()
            &&& v2.len() == v.len()
            &&& forall|i: int| 0 <= i < u.len() ==> #[trigger] u2@[i] == u@[i] + if blue@[i] { eps as int } else { 0 }
            &&& forall|j: int| 0 <= j < v.len() ==> #[trigger] v2@[j] == v@[j] - if red@[j] { eps as int } else { 0 }
        },
{
    let n = u.len();
    let mut best: Option<i64> = None;
    let ghost mut wi: int = 0;
    let ghost mut wj: int = 0;
    let mut i: usize = 0;
    while i < n
        invariant
            n == u.len(),
            is_square_i64(r@, n as int),
            blue.len() == n,
            red.len() == n,
            i <= n,
            forall|a: int, b: int| 0 <= a < n && 0 <= b < n ==> -REDUCED_BOUND <= #[trigger] r@[a]@[b] <= REDUCED_BOUND,
            best is None ==> (forall|a: int| 0 <= a < i ==> !#[trigger] blue@[a]) || (forall|b: int|
                0 <= b < n ==> #[trigger] red@[b]),
            best is Some ==> 0 <= wi < n && 0 <= wj < n && blue@[wi] && !red@[wj] && r@[wi]@[wj] == best->0,
            best is Some ==> forall|a: int, b: int|
                0 <= a < i && 0 <= b < n && blue@[a] && !red@[b] ==> best->0 <= #[trigger] r@[a]@[b],
        decreases n - i,
    {
        if blue[i] {
            let mut j: usize = 0;
            while j < n
                invariant
                    n == u.len(),
                    is_square_i64(r@, n as int),
                    blue.len() == n,
                    red.len() == n,
                    i < n,
                    blue@[i as int],
                    j <= n,
                    best is None ==> (forall|a: int| 0 <= a < i ==> !#[trigger] blue@[a]) || (forall|b: int|
                        0 <= b < n ==> #[trigger] red@[b]),
                    best is None ==> forall|b: int| 0 <= b < j ==> #[trigger] red@[b],
                    best is Some ==> 0 <= wi < n && 0 <= wj < n && blue@[wi] && !red@[wj] && r@[wi]@[wj] == best->0,
                    best is Some ==> forall|a: int, b: int|
                        (0 <= a < i && 0 <= b < n || a == i && 0 <= b < j) && blue@[a] && !red@[b] ==> best->0 <= #[trigger] r@[a]@[b],
                decreases n - j,
            {
                if !red[j] {
                    assert(r@[i as int]@.len() == n);
                    let x = r[i][j];
                    let take = match best {
                        None => true,
                        Some(b) => x < b,
                    };
                    if take {
                        best = Some(x);
                        proof {
                            wi = i as int;
                            wj = j as int;
                        }
                    }
                }
                j += 1;
            }
        }
        i += 1;
    }
    let eps = match best {
        None => {
            assert(!has_uncovered_pair(blue@, red@)) by {
                if has_uncovered_pair(blue@, red@) {
                    let a = choose|a: int| 0 <= a < n && #[trigger] blue@[a];
                    let b = choose|b: int| 0 <= b < n && !#[trigger] red@[b];
                    assert(!blue@[a] || red@[b]);
                }
            }
            return Err(AssignmentError::InfeasibleState);
        },
        Some(e) => e,
    };
    assert(r@[wi]@[wj] == eps);
    let mut u2: Vec<i64> = Vec::new();
    let mut k: usize = 0;
    while k < n
        invariant
            n == u.len(),
            blue.len() == n,
            bounded(u@, DUAL_BOUND as int),
            -REDUCED_BOUND <= eps <= REDUCED_BOUND,
            k <= n,
            u2.len() == k,
            forall|a: int| 0 <= a < k ==> #[trigger] u2@[a] == u@[a] + if blue@[a] { eps as int } else { 0 },
        decreases n - k,
    {
        if blue[k] {
            u2.push(u[k] + eps);
        } else {
            u2.push(u[k]);
        }
        k += 1;
    }
    let mut v2: Vec<i64> = Vec::new();
    k = 0;
    while k < n
        invariant
            n == u.len(),
            v.len() == n,
            red.len() == n,
            bounded(v@, DUAL_BOUND as int),
            -REDUCED_BOUND <= eps <= REDUCED_BOUND,
            k <= n,
            v2.len() == k,
            forall|a: int| 0 <= a < k ==> #[trigger] v2@[a] == v@[a] - if red@[a] { eps as int } else { 0 },
        decreases n - k,
    {
        if red[k] {
            v2.push(v[k] - eps);
        } else {
            v2.push(v[k]);
        }
        k += 1;
    }
    Ok((u2, v2, eps))
}

} // verus!
