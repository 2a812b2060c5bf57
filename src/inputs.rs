//! The problem as it arrives at the boundary, and its validation.
use vstd::prelude::*;
use crate::error::AssignmentError;
use crate::solver::{input_error, validate};

verus! {

/// A problem as received: optional seeded duals and the cost matrix.
pub struct InputAssPblm {
    pub u: Option<Vec<i32>>,
    pub v: Option<Vec<i32>>,
    pub c: Vec<Vec<i32>>,
}

/// A seed as the solver takes it: empty when absent.
pub open spec fn seed_of(s: Option<Vec<i32>>) -> Seq<i32> {
    match s {
        Some(x) => x@,
        None => Seq::empty(),
    }
}

/// Checks the problem and hands back the seeds (empty when absent) and the
/// cost matrix, or the first malformation found.
pub fn parse(ass_pblm_input: InputAssPblm) -> (res: Result<(Vec<i32>, Vec<i32>, Vec<Vec<i32>>), AssignmentError>)
    ensures
        input_error(ass_pblm_input.c@, seed_of(ass_pblm_input.u), seed_of(ass_pblm_input.v)) matches Some(e)
            ==> res == Err::<(Vec<i32>, Vec<i32>, Vec<Vec<i32>>), AssignmentError>(AssignmentError::Input(e)),
        input_error(ass_pblm_input.c@, seed_of(ass_pblm_input.u), seed_of(ass_pblm_input.v)) is None ==> res is Ok,
        res matches Ok((u, v, c)) ==> {
            &&& u@ == seed_of(ass_pblm_input.u)
            &&& v@ == seed_of(ass_pblm_input.v)
            &&& c@ == ass_pblm_input.c@
        },
{
    let InputAssPblm { u, v, c } = ass_pblm_input;
    let u = match u {
        Some(x) => x,
        None => Vec::new(),
    };
    let v = match v {
        Some(x) => x,
        None => Vec::new(),
    };
    match validate(&c, &u, &v) {
        Some(e) => Err(AssignmentError::Input(e)),
        None => Ok((u, v, c)),
    }
}

} // verus!
