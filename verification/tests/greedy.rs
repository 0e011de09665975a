use twin_width::graph::Graph;
use twin_width::greedy::Sequence;

fn graph(edges: &[(u32, u32)]) -> Graph {
    let mut g = Graph::new();
    for (u, v) in edges {
        g.add_black_edge(*u, *v);
    }
    g
}

fn replayed_width(edges: &[(u32, u32)], sequence: &Sequence) -> u32 {
    let mut g = graph(edges);
    let mut width = 0;
    for (u, v) in &sequence.contractions {
        let (_, cost) = g.count_merge(*u, *v);
        width = width.max(cost);
        g.merge(*u, *v);
    }
    assert!(g.vertices().len() <= 1);
    width
}

#[test]
fn greedy_on_a_single_edge() {
    let sequence = graph(&[(1, 2)]).greedy();
    assert_eq!(sequence.width, 0);
    assert_eq!(sequence.contractions, vec![(1, 2)]);
}

#[test]
fn greedy_on_a_triangle() {
    let edges = [(1, 2), (2, 3), (1, 3)];
    let g = graph(&edges);
    assert_eq!(g.count_merge(1, 2).1, 0);
    assert_eq!(g.count_merge(1, 3).1, 0);
    assert_eq!(g.count_merge(2, 3).1, 0);
    let sequence = g.greedy();
    assert_eq!(sequence.width, 0);
    assert_eq!(sequence.contractions, vec![(1, 2), (1, 3)]);
    let mut h = graph(&edges);
    h.merge(1, 2);
    assert_eq!(h.black_neighbors(1), vec![3]);
    assert_eq!(h.black_neighbors(3), vec![1]);
}

#[test]
fn greedy_on_two_disjoint_edges() {
    let edges = [(1, 2), (3, 4)];
    let sequence = graph(&edges).greedy();
    assert_eq!(sequence.width, 0);
    assert_eq!(sequence.contractions, vec![(1, 2), (3, 4), (1, 3)]);
    let mut g = graph(&edges);
    assert_eq!(g.count_merge(1, 2).1, 0);
    g.merge(1, 2);
    assert_eq!(g.count_merge(3, 4).1, 0);
    g.merge(3, 4);
    assert_eq!(g.count_merge(1, 3).1, 0);
}

#[test]
fn greedy_on_a_path_of_four() {
    let edges = [(1, 2), (2, 3), (3, 4)];
    let sequence = graph(&edges).greedy();
    assert_eq!(sequence.width, 1);
    assert_eq!(sequence.contractions, vec![(1, 2), (1, 3), (1, 4)]);
    assert_eq!(replayed_width(&edges, &sequence), 1);
}

#[test]
fn greedy_on_a_star() {
    let edges = [(1, 2), (1, 3), (1, 4)];
    let sequence = graph(&edges).greedy();
    assert_eq!(sequence.width, 0);
    assert_eq!(sequence.contractions, vec![(2, 3), (2, 4), (1, 2)]);
}

#[test]
fn greedy_on_a_cycle_of_five() {
    let edges = [(1, 2), (2, 3), (3, 4), (4, 5), (5, 1)];
    let sequence = graph(&edges).greedy();
    assert_eq!(sequence.width, 2);
    assert_eq!(sequence.contractions, vec![(1, 2), (3, 5), (1, 3), (1, 4)]);
    assert_eq!(replayed_width(&edges, &sequence), 2);
}

#[test]
fn greedy_on_the_empty_graph() {
    let sequence = Graph::new().greedy();
    assert_eq!(sequence.width, 0);
    assert_eq!(sequence.contractions, Vec::<(u32, u32)>::new());
}

#[test]
fn greedy_on_one_vertex() {
    let sequence = graph(&[(5, 5)]).greedy();
    assert_eq!(sequence.width, 0);
    assert_eq!(sequence.contractions, Vec::<(u32, u32)>::new());
}

#[test]
fn greedy_does_not_depend_on_the_order_of_the_edges() {
    let a = graph(&[(1, 2), (2, 3), (3, 4), (4, 5), (5, 1), (2, 6)]).greedy();
    let b = graph(&[(6, 2), (1, 5), (5, 4), (4, 3), (3, 2), (2, 1)]).greedy();
    assert_eq!(a.contractions, b.contractions);
    assert_eq!(a.width, b.width);
}

#[test]
fn greedy_keeps_the_first_of_equally_cheap_pairs() {
    // Four isolated pairs would all cost 0; the first pair tried is (2, 9).
    let mut g = Graph::new();
    g.add_black_edge(9, 9);
    g.add_black_edge(2, 2);
    g.add_black_edge(30, 30);
    let sequence = g.greedy();
    assert_eq!(sequence.contractions, vec![(2, 9), (2, 30)]);
    assert_eq!(sequence.width, 0);
}

#[test]
fn greedy_names_every_vertex_and_makes_one_merge_less_than_vertices() {
    let edges = [(10, 20), (20, 30), (30, 40), (40, 10), (10, 30), (50, 60), (70, 10), (80, 90)];
    let g = graph(&edges);
    let labels = g.vertices();
    let sequence = g.greedy();
    assert_eq!(sequence.contractions.len(), labels.len() - 1);
    for x in &labels {
        assert!(
            sequence.contractions.iter().any(|(u, v)| u == x || v == x),
            "{x} is in no merge"
        );
    }
    let mut gone = Vec::new();
    for (u, v) in &sequence.contractions {
        assert!(u < v);
        assert!(!gone.contains(u));
        assert!(!gone.contains(v));
        gone.push(*v);
    }
}

#[test]
fn width_is_the_largest_cost_of_a_recorded_merge() {
    let graphs: [&[(u32, u32)]; 4] = [
        &[(1, 2), (2, 3), (3, 4), (4, 5), (5, 6), (6, 1), (1, 4)],
        &[(1, 2), (1, 3), (1, 4), (2, 3), (2, 4), (3, 4), (4, 5)],
        &[(1, 2), (3, 4), (5, 6), (7, 8), (2, 3), (6, 7)],
        &[(1, 5), (1, 6), (1, 7), (2, 5), (2, 6), (3, 7), (4, 5), (4, 7), (3, 6)],
    ];
    for edges in graphs {
        let sequence = graph(edges).greedy();
        assert_eq!(replayed_width(edges, &sequence), sequence.width);
    }
}

#[test]
fn each_merge_is_the_cheapest_pair_first_tried() {
    let edges = [(1, 2), (2, 3), (3, 4), (4, 5), (5, 6), (6, 1), (1, 4), (7, 2)];
    let sequence = graph(&edges).greedy();
    let mut g = graph(&edges);
    for (u, v) in &sequence.contractions {
        let labels = g.vertices();
        let cost = g.count_merge(*u, *v).1;
        for a in &labels {
            for b in &labels {
                if a < b {
                    let other = g.count_merge(*a, *b).1;
                    assert!(cost <= other);
                    if other == cost {
                        assert!((*u, *v) <= (*a, *b));
                    }
                }
            }
        }
        g.merge(*u, *v);
    }
}
