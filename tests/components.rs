use assignment_problem::bipartite::{bipartite_undirected, is_bipartite_undirected, UndirectedGraph};
use assignment_problem::duals::update_duals;
use assignment_problem::equality::generate_equality_graph;
use assignment_problem::error::AssignmentError;
use assignment_problem::matrix::{generate_u_vector, generate_v_vector, is_feasible, reduced_costs};

fn example() -> Vec<Vec<i32>> {
    vec![vec![5, 2, 3, 4], vec![7, 8, 4, 5], vec![6, 3, 5, 6], vec![2, 2, 3, 5]]
}

#[test]
fn row_and_column_minima_seed_the_duals() {
    let c = example();
    let u = generate_u_vector(&c);
    assert_eq!(u, vec![2, 4, 3, 2]);
    let u64s: Vec<i64> = u.iter().map(|&x| x as i64).collect();
    let v = generate_v_vector(&c, &u64s);
    assert_eq!(v, vec![0, 0, 0, 1]);
}

#[test]
fn reduced_costs_and_equality_graph() {
    let c = example();
    let r = reduced_costs(&c, &vec![2, 4, 3, 2], &vec![0, 0, 0, 1]);
    assert_eq!(r, vec![vec![3, 0, 1, 1], vec![3, 4, 0, 0], vec![3, 0, 2, 2], vec![0, 0, 1, 2]]);
    let g = generate_equality_graph(&r);
    assert_eq!(g.n, 4);
    assert_eq!(g.edges(), vec![(0, 1), (1, 2), (1, 3), (2, 1), (3, 0), (3, 1)]);
}

#[test]
fn feasibility_check() {
    let c = example();
    assert!(is_feasible(&c, &vec![2, 4, 3, 2], &vec![0, 0, 0, 1]));
    assert!(!is_feasible(&c, &vec![2, 4, 3, 2], &vec![0, 0, 0, 2]));
}

#[test]
fn dual_step_uses_smallest_uncovered_reduced_cost() {
    let r = vec![vec![3, 0, 1, 1], vec![3, 4, 0, 0], vec![3, 0, 2, 2], vec![0, 0, 1, 2]];
    let blue = vec![true, false, true, false];
    let red = vec![false, true, false, false];
    let (u, v, eps) = update_duals(&r, &blue, &red, &vec![2, 4, 3, 2], &vec![0, 0, 0, 1]).unwrap();
    assert_eq!(eps, 1);
    assert_eq!(u, vec![3, 4, 4, 2]);
    assert_eq!(v, vec![0, -1, 0, 1]);
}

#[test]
fn dual_step_without_uncovered_pair_fails() {
    let r = vec![vec![0, 1], vec![1, 0]];
    let blue = vec![true, true];
    let red = vec![true, true];
    let res = update_duals(&r, &blue, &red, &vec![0, 0], &vec![0, 0]);
    assert_eq!(res.err(), Some(AssignmentError::InfeasibleState));
    let res = update_duals(&r, &vec![false, false], &vec![false, false], &vec![0, 0], &vec![0, 0]);
    assert_eq!(res.err(), Some(AssignmentError::InfeasibleState));
}

fn undirected(n: usize, edges: &[(usize, usize)]) -> UndirectedGraph {
    let mut adj = vec![Vec::new(); n];
    for &(a, b) in edges {
        adj[a].push(b);
        if a != b {
            adj[b].push(a);
        }
    }
    UndirectedGraph { adj }
}

#[test]
fn even_cycle_is_bipartite() {
    let g = undirected(4, &[(0, 1), (1, 2), (2, 3), (3, 0)]);
    assert!(is_bipartite_undirected(&g));
    let p = bipartite_undirected(&g).unwrap();
    assert_eq!(p.nodes_u, vec![0, 2]);
    assert_eq!(p.nodes_v, vec![1, 3]);
}

#[test]
fn disconnected_graph_is_partitioned_per_component() {
    let g = undirected(6, &[(0, 3), (1, 4), (4, 2), (5, 2)]);
    let p = bipartite_undirected(&g).unwrap();
    assert_eq!(p.nodes_u, vec![0, 1, 2]);
    assert_eq!(p.nodes_v, vec![3, 4, 5]);
}

#[test]
fn odd_cycle_is_not_bipartite() {
    let g = undirected(5, &[(0, 1), (1, 2), (2, 3), (3, 4), (4, 0)]);
    assert!(!is_bipartite_undirected(&g));
    assert!(bipartite_undirected(&g).is_none());
}

#[test]
fn self_loop_is_not_bipartite() {
    let g = undirected(2, &[(0, 1), (1, 1)]);
    assert!(bipartite_undirected(&g).is_none());
}

#[test]
fn equality_graph_view_is_bipartite() {
    let r = vec![vec![0, 0, 1], vec![0, 1, 0], vec![1, 0, 0]];
    let g = generate_equality_graph(&r);
    let view = g.to_undirected();
    assert_eq!(view.adj.len(), 6);
    assert_eq!(view.adj[0], vec![3, 4]);
    assert_eq!(view.adj[5], vec![1, 2]);
    let p = bipartite_undirected(&view).unwrap();
    assert_eq!(p.nodes_u, vec![0, 1, 2]);
    assert_eq!(p.nodes_v, vec![3, 4, 5]);
}
