use max_clique::graph::Graph;
use max_clique::vset::{vset_contains, vset_remove};

#[test]
fn degree_and_neighbours() {
    let g = Graph::build(&vec![(0, 1), (0, 2), (1, 2), (2, 3)]);
    assert_eq!(g.degree(0), 2);
    assert_eq!(g.degree(2), 3);
    assert_eq!(g.degree(3), 1);
    assert_eq!(g.neighbours(2), &vec![0, 1, 3]);
}

#[test]
fn duplicate_edges_collapse() {
    let g = Graph::build(&vec![(1, 2), (2, 1), (1, 2)]);
    assert_eq!(g.degree(1), 1);
    assert_eq!(g.degree(2), 1);
}

#[test]
fn self_loops_are_discarded() {
    let g = Graph::build(&vec![(1, 1), (1, 2)]);
    assert_eq!(g.degree(1), 1);
    assert!(!vset_contains(g.neighbours(1), 1));
    assert!(vset_contains(g.neighbours(1), 2));
}

#[test]
fn subgraph_neighbours_intersects() {
    let g = Graph::build(&vec![(0, 1), (0, 2), (0, 3), (1, 2)]);
    let subset = vec![1u16, 3];
    let r = g.subgraph_neighbours(&subset, 0);
    assert_eq!(r, vec![1, 3]);
    let r2 = g.subgraph_neighbours(&subset, 1);
    assert_eq!(r2, vec![]);
}

#[test]
fn vertices_lists_those_with_edges() {
    let g = Graph::build(&vec![(0, 5), (2, 3)]);
    assert_eq!(g.vertices(), vec![0, 2, 3, 5]);
}

#[test]
fn vset_remove_keeps_order() {
    let s = vec![1u16, 4, 9];
    assert_eq!(vset_remove(&s, 4), vec![1, 9]);
    assert_eq!(vset_remove(&s, 7), vec![1, 4, 9]);
}

#[test]
fn coloring_is_proper_and_bounds_cliques() {
    // A triangle with a tail: the chromatic bound must reach three.
    let g = Graph::build(&vec![(0, 1), (1, 2), (0, 2), (2, 3)]);
    let subset = vec![0u16, 1, 2, 3];
    let coloring = g.greedy_coloring(&subset);
    assert_eq!(coloring.len(), 4);
    let mut max_color: usize = 0;
    for &(u, cu) in &coloring {
        if cu > max_color {
            max_color = cu;
        }
        for &(v, cv) in &coloring {
            if u != v && vset_contains(g.neighbours(u), v) {
                assert!(cu != cv, "adjacent vertices {} and {} share color {}", u, v, cu);
            }
        }
    }
    // The triangle {0, 1, 2} is a clique of three inside the subset.
    assert!(max_color + 1 >= 3);
}

#[test]
fn coloring_of_independent_set_uses_one_color() {
    let g = Graph::build(&vec![(0, 1), (2, 3)]);
    let subset = vec![0u16, 2];
    let coloring = g.greedy_coloring(&subset);
    assert_eq!(coloring.len(), 2);
    for &(_, c) in &coloring {
        assert_eq!(c, 0);
    }
}
