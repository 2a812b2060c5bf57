use assignment_problem::equality::Node;
use assignment_problem::error::{AssignmentError, InputError};
use assignment_problem::inputs::{parse, InputAssPblm};
use assignment_problem::solver::{solve, OptimalSolution, ProblemState};

fn example() -> Vec<Vec<i32>> {
    vec![vec![5, 2, 3, 4], vec![7, 8, 4, 5], vec![6, 3, 5, 6], vec![2, 2, 3, 5]]
}

fn feasible(c: &[Vec<i32>], s: &ProblemState) -> bool {
    let n = c.len();
    (0..n).all(|i| (0..n).all(|j| s.u[i] + s.v[j] <= c[i][j] as i64))
}

fn check_trace(c: &[Vec<i32>], trace: &[ProblemState]) -> i64 {
    let n = c.len();
    assert!(!trace.is_empty());
    assert!(trace.len() <= n * (n + 1));
    for s in trace {
        assert!(feasible(c, s));
        for i in 0..n {
            for j in 0..n {
                assert_eq!(s.reduced[i][j], c[i][j] as i64 - s.u[i] - s.v[j]);
                assert_eq!(s.reduced[i][j] == 0, s.edges.contains(&(i, j)));
            }
        }
        for &(a, t) in &s.matching {
            assert_eq!(s.reduced[a][t], 0);
        }
        assert_eq!(s.cover.len(), s.matching.len());
        for &(a, t) in &s.edges {
            assert!(s.cover.contains(&Node::Agent(a)) || s.cover.contains(&Node::Task(t)));
        }
    }
    for w in trace.windows(2) {
        let before: i64 = w[0].u.iter().sum::<i64>() + w[0].v.iter().sum::<i64>();
        let after: i64 = w[1].u.iter().sum::<i64>() + w[1].v.iter().sum::<i64>();
        assert!(before < after);
        assert!(w[0].matching.len() < n);
        assert!(w[1].edges.iter().any(|e| !w[0].edges.contains(e)));
    }
    let last = trace.last().unwrap();
    assert_eq!(last.matching.len(), n);
    let mut rows = vec![0; n];
    let mut cols = vec![0; n];
    let mut total: i64 = 0;
    for &(a, t) in &last.matching {
        rows[a] += 1;
        cols[t] += 1;
        total += c[a][t] as i64;
    }
    assert!(rows.iter().all(|&k| k == 1));
    assert!(cols.iter().all(|&k| k == 1));
    let duals: i64 = last.u.iter().sum::<i64>() + last.v.iter().sum::<i64>();
    assert_eq!(total, duals);
    total
}

#[test]
fn end_to_end_with_seeded_duals() {
    let c = example();
    let trace = solve(&c, &vec![2, 4, 3, 2], &vec![0, 0, 0, 1]).unwrap();
    assert_eq!(trace[0].u, vec![2, 4, 3, 2]);
    assert_eq!(trace[0].v, vec![0, 0, 0, 1]);
    assert_eq!(check_trace(&c, &trace), 13);
}

#[test]
fn end_to_end_with_derived_duals() {
    let c = example();
    let trace = solve(&c, &Vec::new(), &Vec::new()).unwrap();
    assert_eq!(trace[0].u, vec![2, 4, 3, 2]);
    assert_eq!(trace[0].v, vec![0, 0, 0, 1]);
    assert_eq!(check_trace(&c, &trace), 13);
}

#[test]
fn session_reports_optimal_cost() {
    let mut session = OptimalSolution::new();
    session.init(vec![2, 4, 3, 2], vec![0, 0, 0, 1], example());
    assert_eq!(session.find_optimum_cost(), Ok(13));
    assert_eq!(check_trace(&example(), &session.states), 13);
}

#[test]
fn session_without_problem_fails() {
    let mut session = OptimalSolution::new();
    assert_eq!(session.find_optimum_cost(), Err(AssignmentError::Input(InputError::EmptyMatrix)));
    assert!(session.states.is_empty());
}

#[test]
fn identical_input_gives_identical_trace() {
    let c = vec![vec![4, 1, 3, 7], vec![2, 0, 5, 1], vec![3, 2, 2, 6], vec![1, 9, 4, 2]];
    let a = solve(&c, &Vec::new(), &Vec::new()).unwrap();
    let b = solve(&c, &Vec::new(), &Vec::new()).unwrap();
    assert_eq!(a.len(), b.len());
    for (x, y) in a.iter().zip(b.iter()) {
        assert_eq!(x.u, y.u);
        assert_eq!(x.v, y.v);
        assert_eq!(x.reduced, y.reduced);
        assert_eq!(x.edges, y.edges);
        assert_eq!(x.matching, y.matching);
    }
}

#[test]
fn three_by_three_optimum() {
    let c = vec![vec![4, 1, 3], vec![2, 0, 5], vec![3, 2, 2]];
    let trace = solve(&c, &Vec::new(), &Vec::new()).unwrap();
    assert_eq!(check_trace(&c, &trace), 5);
}

#[test]
fn single_agent() {
    let c = vec![vec![-7]];
    let trace = solve(&c, &Vec::new(), &Vec::new()).unwrap();
    assert_eq!(trace.len(), 1);
    assert_eq!(trace[0].matching, vec![(0, 0)]);
    assert_eq!(check_trace(&c, &trace), -7);
}

#[test]
fn equal_costs_everywhere() {
    let c = vec![vec![3; 5]; 5];
    let trace = solve(&c, &Vec::new(), &Vec::new()).unwrap();
    assert_eq!(trace.len(), 1);
    assert_eq!(check_trace(&c, &trace), 15);
}

#[test]
fn needs_several_dual_steps() {
    let c = vec![
        vec![9, 2, 7, 8, 6],
        vec![6, 4, 3, 7, 5],
        vec![5, 8, 1, 8, 4],
        vec![7, 6, 9, 4, 3],
        vec![2, 5, 6, 3, 9],
    ];
    let trace = solve(&c, &Vec::new(), &Vec::new()).unwrap();
    assert!(trace.len() > 1);
    assert_eq!(check_trace(&c, &trace), 14);
}

#[test]
fn extreme_costs() {
    let c = vec![vec![i32::MAX, i32::MIN], vec![i32::MIN, i32::MAX]];
    let trace = solve(&c, &Vec::new(), &Vec::new()).unwrap();
    assert_eq!(check_trace(&c, &trace), 2 * i32::MIN as i64);
}

#[test]
fn empty_matrix_is_rejected() {
    let r = solve(&Vec::new(), &Vec::new(), &Vec::new());
    assert!(matches!(r, Err(AssignmentError::Input(InputError::EmptyMatrix))));
}

#[test]
fn ragged_matrix_is_rejected() {
    let c = vec![vec![1, 2], vec![3]];
    assert!(matches!(solve(&c, &Vec::new(), &Vec::new()), Err(AssignmentError::Input(InputError::RaggedRows))));
}

#[test]
fn rectangular_matrix_is_rejected() {
    let c = vec![vec![1, 2, 3], vec![4, 5, 6]];
    assert!(matches!(solve(&c, &Vec::new(), &Vec::new()), Err(AssignmentError::Input(InputError::NotSquare))));
}

#[test]
fn dual_length_mismatch_is_rejected() {
    let c = example();
    let r = solve(&c, &vec![1, 2], &Vec::new());
    assert!(matches!(r, Err(AssignmentError::Input(InputError::DualLengthMismatch))));
    let r = solve(&c, &Vec::new(), &vec![0, 0, 0]);
    assert!(matches!(r, Err(AssignmentError::Input(InputError::DualLengthMismatch))));
}

#[test]
fn infeasible_seed_is_rejected() {
    let c = example();
    let r = solve(&c, &vec![3, 4, 3, 2], &vec![0, 0, 0, 1]);
    assert!(matches!(r, Err(AssignmentError::Input(InputError::InfeasibleDuals))));
}

#[test]
fn parse_fills_absent_seeds() {
    let input = InputAssPblm { u: None, v: Some(vec![0, 0, 0, 1]), c: example() };
    let (u, v, c) = parse(input).unwrap();
    assert!(u.is_empty());
    assert_eq!(v, vec![0, 0, 0, 1]);
    assert_eq!(c, example());
}

#[test]
fn parse_rejects_malformed_input() {
    let input = InputAssPblm { u: None, v: None, c: vec![vec![1, 2], vec![3, 4], vec![5, 6]] };
    assert_eq!(parse(input).err(), Some(AssignmentError::Input(InputError::NotSquare)));
}
