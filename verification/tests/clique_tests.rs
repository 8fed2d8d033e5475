use max_clique::graph::Graph;
use max_clique::heuristic::MaxCliqueData;
use max_clique::search::{get_max_clique, BestClique};
use max_clique::vset::vset_contains;

fn assert_is_clique(g: &Graph, clique: &Vec<u16>) {
    for i in 0..clique.len() {
        for j in 0..clique.len() {
            if i != j {
                assert!(
                    vset_contains(g.neighbours(clique[i]), clique[j]),
                    "vertices {} and {} are not adjacent",
                    clique[i],
                    clique[j]
                );
            }
        }
    }
}

#[test]
fn empty_graph_yields_empty_clique() {
    let g = Graph::build(&vec![]);
    let r = get_max_clique(&g);
    assert_eq!(r.len(), 0);
}

#[test]
fn single_edge_clique() {
    let g = Graph::build(&vec![(1, 2)]);
    let mut r = get_max_clique(&g);
    r.sort();
    assert_eq!(r, vec![1, 2]);
}

#[test]
fn complete_graph_clique() {
    let mut edges: Vec<(u16, u16)> = Vec::new();
    for a in 0..5u16 {
        for b in (a + 1)..5u16 {
            edges.push((a, b));
        }
    }
    let g = Graph::build(&edges);
    let mut r = get_max_clique(&g);
    r.sort();
    assert_eq!(r, vec![0, 1, 2, 3, 4]);
}

#[test]
fn two_disjoint_triangles() {
    let g = Graph::build(&vec![(0, 1), (1, 2), (0, 2), (3, 4), (4, 5), (3, 5)]);
    let r = get_max_clique(&g);
    assert_eq!(r.len(), 3);
    assert_is_clique(&g, &r);
}

#[test]
fn high_degree_vertex_without_triangle() {
    // A star: vertex 0 has degree five, yet no triangle exists.
    let g = Graph::build(&vec![(0, 1), (0, 2), (0, 3), (0, 4), (0, 5)]);
    let r = get_max_clique(&g);
    assert_eq!(r.len(), 2);
    assert_is_clique(&g, &r);
}

#[test]
fn returned_clique_is_pairwise_adjacent() {
    // Two triangles sharing vertex 2, plus a pendant edge.
    let g = Graph::build(&vec![(0, 1), (1, 2), (0, 2), (2, 3), (3, 4), (2, 4), (4, 9)]);
    let r = get_max_clique(&g);
    assert_eq!(r.len(), 3);
    assert_is_clique(&g, &r);
}

#[test]
fn exact_search_beats_heuristic() {
    let edges = vec![(0, 1), (1, 2), (0, 2), (2, 3), (3, 4), (2, 4), (4, 5), (5, 6), (6, 7)];
    let g = Graph::build(&edges);
    let mut data = MaxCliqueData::new();
    g.max_clique_heuristic(&mut data);
    let r = get_max_clique(&g);
    assert!(r.len() >= data.max_clique.len());
    assert_is_clique(&g, &data.max_clique);
}

#[test]
fn exact_search_length_is_idempotent() {
    let edges = vec![(0, 1), (1, 2), (0, 2), (2, 3), (3, 4), (2, 4), (1, 4), (1, 3)];
    let g = Graph::build(&edges);
    let r1 = get_max_clique(&g);
    let r2 = get_max_clique(&g);
    assert_eq!(r1.len(), r2.len());
}

#[test]
fn best_clique_length_never_decreases() {
    let mut best = BestClique::new(vec![]);
    let mut lengths: Vec<usize> = Vec::new();
    best.update_if_longer(&vec![7]);
    lengths.push(best.read().len());
    best.update_if_longer(&vec![1, 2, 3]);
    lengths.push(best.read().len());
    best.update_if_longer(&vec![4, 5]);
    lengths.push(best.read().len());
    best.update_if_longer(&vec![]);
    lengths.push(best.read().len());
    assert_eq!(lengths, vec![1, 3, 3, 3]);
    assert_eq!(best.read(), vec![1, 2, 3]);
}
