use assignment_problem::equality::{EqualityGraph, Node};
use assignment_problem::hungarian::hungarian_maximum_matching;

/// An equality graph on `n` agents and `n` tasks from `(agent, task)` edges,
/// written with the one-based labels `s1..sn` and `t1..tn`.
fn graph(n: usize, edges: &[(usize, usize)]) -> EqualityGraph {
    let mut edge = vec![vec![false; n]; n];
    for &(s, t) in edges {
        edge[s - 1][t - 1] = true;
    }
    EqualityGraph { n, edge }
}

fn matching(pairs: &[(usize, usize)]) -> Vec<(usize, usize)> {
    pairs.iter().map(|&(s, t)| (s - 1, t - 1)).collect()
}

fn is_valid_matching(g: &EqualityGraph, m: &[(usize, usize)]) -> bool {
    let mut agents = vec![false; g.n];
    let mut tasks = vec![false; g.n];
    for &(a, t) in m {
        if !g.edge[a][t] || agents[a] || tasks[t] {
            return false;
        }
        agents[a] = true;
        tasks[t] = true;
    }
    true
}

#[test]
fn test_hungarian_maximum_matching() {
    {
        let g = graph(
            5,
            &[(1, 2), (1, 3), (2, 1), (2, 2), (2, 4), (2, 5), (3, 2), (3, 3), (4, 2), (4, 3), (5, 4), (5, 5)],
        );
        let input_max_matching = matching(&[(2, 2), (3, 3), (5, 5)]);
        let (min_cover, max_matching) = hungarian_maximum_matching(&g, &input_max_matching).unwrap();
        let min_cover_test = vec![Node::Agent(1), Node::Agent(4), Node::Task(1), Node::Task(2)];
        println!("{:?}", min_cover);
        assert_eq!(min_cover, min_cover_test);
        println!("{:?}", max_matching);
    }
    {
        let g = graph(
            5,
            &[(1, 3), (1, 4), (2, 1), (2, 2), (2, 3), (2, 5), (3, 3), (4, 1), (4, 2), (4, 5), (5, 3), (5, 4)],
        );
        let input_max_matching = matching(&[(2, 3), (5, 4)]);
        let (min_cover, max_matching) = hungarian_maximum_matching(&g, &input_max_matching).unwrap();
        let min_cover_test = vec![Node::Agent(1), Node::Agent(3), Node::Task(2), Node::Task(3)];
        println!("{:?}", min_cover);
        assert_eq!(min_cover, min_cover_test);
        println!("{:?}", max_matching);
    }
    {
        let g = graph(4, &[(1, 2), (2, 3), (2, 4), (3, 2), (4, 1), (4, 2)]);
        let input_max_matching = matching(&[(1, 2), (4, 1)]);
        let (min_cover, max_matching) = hungarian_maximum_matching(&g, &input_max_matching).unwrap();
        let min_cover_test = vec![Node::Agent(1), Node::Agent(3), Node::Task(1)];
        println!("{:?}", min_cover);
        assert_eq!(min_cover, min_cover_test);
        println!("{:?}", max_matching);
    }
}

#[test]
fn hungarian_fixture_matching_size_equals_cover_size() {
    let g = graph(
        5,
        &[(1, 2), (1, 3), (2, 1), (2, 2), (2, 4), (2, 5), (3, 2), (3, 3), (4, 2), (4, 3), (5, 4), (5, 5)],
    );
    let (cover, m) = hungarian_maximum_matching(&g, &matching(&[(2, 2), (3, 3), (5, 5)])).unwrap();
    assert_eq!(m.len(), 4);
    assert_eq!(cover.len(), m.len());
    assert!(is_valid_matching(&g, &m));
    assert_eq!(m, vec![(0, 1), (1, 0), (2, 2), (4, 4)]);
}

#[test]
fn hungarian_fixture_is_reproducible() {
    let g = graph(4, &[(1, 2), (2, 3), (2, 4), (3, 2), (4, 1), (4, 2)]);
    let first = hungarian_maximum_matching(&g, &matching(&[(1, 2), (4, 1)])).unwrap();
    let second = hungarian_maximum_matching(&g, &matching(&[(1, 2), (4, 1)])).unwrap();
    assert_eq!(first, second);
    assert_eq!(first.1.len(), 3);
}

#[test]
fn hungarian_completes_from_empty_matching() {
    let g = graph(3, &[(1, 1), (1, 2), (2, 1), (3, 3)]);
    let (cover, m) = hungarian_maximum_matching(&g, &Vec::new()).unwrap();
    assert_eq!(m, vec![(0, 1), (1, 0), (2, 2)]);
    assert_eq!(cover, vec![Node::Agent(0), Node::Agent(1), Node::Agent(2)]);
}

#[test]
fn hungarian_rejects_pairs_that_are_not_a_matching() {
    let g = graph(3, &[(1, 1), (1, 2), (2, 1), (3, 3)]);
    assert!(hungarian_maximum_matching(&g, &vec![(0, 2)]).is_none());
    assert!(hungarian_maximum_matching(&g, &vec![(0, 0), (1, 0)]).is_none());
    assert!(hungarian_maximum_matching(&g, &vec![(0, 0), (0, 1)]).is_none());
    assert!(hungarian_maximum_matching(&g, &vec![(3, 0)]).is_none());
}

#[test]
fn hungarian_on_graph_without_edges() {
    let g = graph(2, &[]);
    let (cover, m) = hungarian_maximum_matching(&g, &Vec::new()).unwrap();
    assert!(m.is_empty());
    assert!(cover.is_empty());
}
