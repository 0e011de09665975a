use twin_width::graph::Graph;

fn path4() -> Graph {
    let mut g = Graph::new();
    g.add_black_edge(1, 2);
    g.add_black_edge(2, 3);
    g.add_black_edge(3, 4);
    g
}

fn assert_invariant(g: &Graph) {
    for u in g.vertices() {
        let red = g.red_neighbors(u);
        let black = g.black_neighbors(u);
        for v in &red {
            assert!(g.has_vertex(*v));
            assert!(g.red_neighbors(*v).contains(&u), "red {u}-{v} is one-sided");
            assert!(!black.contains(v), "{u}-{v} is red and black");
            assert_ne!(*v, u);
        }
        for v in &black {
            assert!(g.has_vertex(*v));
            assert!(g.black_neighbors(*v).contains(&u), "black {u}-{v} is one-sided");
        }
    }
}

#[test]
fn new_graph_is_empty() {
    let g = Graph::new();
    assert_eq!(g.vertices(), Vec::<u32>::new());
    assert!(!g.has_vertex(0));
    assert_eq!(g.red_neighbors(0), Vec::<u32>::new());
    assert_eq!(g.black_neighbors(0), Vec::<u32>::new());
}

#[test]
fn default_graph_is_empty() {
    let g = Graph::default();
    assert_eq!(g.vertices(), Vec::<u32>::new());
}

#[test]
fn black_edge_creates_both_ends() {
    let mut g = Graph::new();
    g.add_black_edge(7, 3);
    assert_eq!(g.vertices(), vec![3, 7]);
    assert_eq!(g.black_neighbors(3), vec![7]);
    assert_eq!(g.black_neighbors(7), vec![3]);
    assert_eq!(g.red_neighbors(3), Vec::<u32>::new());
    assert_eq!(g.red_neighbors(7), Vec::<u32>::new());
    assert_invariant(&g);
}

#[test]
fn red_edge_creates_both_ends() {
    let mut g = Graph::new();
    g.add_red_edge(5, 9);
    assert_eq!(g.vertices(), vec![5, 9]);
    assert_eq!(g.red_neighbors(5), vec![9]);
    assert_eq!(g.red_neighbors(9), vec![5]);
    assert_eq!(g.black_neighbors(5), Vec::<u32>::new());
    assert_eq!(g.black_neighbors(9), Vec::<u32>::new());
    assert_invariant(&g);
}

#[test]
fn adding_an_edge_twice_changes_nothing() {
    let mut g = Graph::new();
    g.add_black_edge(1, 2);
    g.add_black_edge(1, 2);
    g.add_black_edge(2, 1);
    g.add_red_edge(2, 3);
    g.add_red_edge(3, 2);
    assert_eq!(g.vertices(), vec![1, 2, 3]);
    assert_eq!(g.black_neighbors(1), vec![2]);
    assert_eq!(g.black_neighbors(2), vec![1]);
    assert_eq!(g.red_neighbors(2), vec![3]);
    assert_eq!(g.red_neighbors(3), vec![2]);
    assert_invariant(&g);
}

#[test]
fn black_loop_is_kept() {
    let mut g = Graph::new();
    g.add_black_edge(4, 4);
    assert_eq!(g.vertices(), vec![4]);
    assert_eq!(g.black_neighbors(4), vec![4]);
    assert_invariant(&g);
}

#[test]
fn delete_vertex_removes_its_edges() {
    let mut g = path4();
    g.add_red_edge(2, 4);
    g.delete_vertex(2);
    assert_eq!(g.vertices(), vec![1, 3, 4]);
    assert!(!g.has_vertex(2));
    assert_eq!(g.black_neighbors(1), Vec::<u32>::new());
    assert_eq!(g.black_neighbors(3), vec![4]);
    assert_eq!(g.red_neighbors(4), Vec::<u32>::new());
    assert_invariant(&g);
}

#[test]
fn delete_vertex_with_a_loop() {
    let mut g = Graph::new();
    g.add_black_edge(1, 1);
    g.add_black_edge(1, 2);
    g.delete_vertex(1);
    assert_eq!(g.vertices(), vec![2]);
    assert_eq!(g.black_neighbors(2), Vec::<u32>::new());
}

#[test]
fn delete_absent_vertex_changes_nothing() {
    let mut g = path4();
    g.delete_vertex(9);
    assert_eq!(g.vertices(), vec![1, 2, 3, 4]);
    assert_eq!(g.black_neighbors(2), vec![1, 3]);
    assert_eq!(g.black_neighbors(3), vec![2, 4]);
}

#[test]
fn count_merge_on_a_path() {
    let g = path4();
    assert_eq!(g.count_merge(1, 2), (0, 1));
    assert_eq!(g.count_merge(1, 3), (0, 1));
    assert_eq!(g.count_merge(1, 4), (0, 2));
    assert_eq!(g.count_merge(2, 3), (0, 2));
    assert_eq!(g.count_merge(2, 4), (0, 1));
    assert_eq!(g.count_merge(3, 4), (0, 1));
}

#[test]
fn count_merge_counts_black_disagreement_and_red_union_once() {
    let mut g = Graph::new();
    // 1 and 2 disagree on 3 and 4 in black; 5 is red to both; 6 is red to 1
    // and black to 2.
    g.add_black_edge(1, 3);
    g.add_black_edge(2, 4);
    g.add_red_edge(1, 5);
    g.add_red_edge(2, 5);
    g.add_red_edge(1, 6);
    g.add_black_edge(2, 6);
    g.add_black_edge(1, 7);
    g.add_black_edge(2, 7);
    // merged red neighbours: 3, 4, 5, 6
    assert_eq!(g.count_merge(1, 2), (2, 4));
    assert_eq!(g.count_merge(2, 1), (1, 4));
}

#[test]
fn count_merge_leaves_out_the_pair_itself() {
    let mut g = Graph::new();
    g.add_black_edge(1, 2);
    assert_eq!(g.count_merge(1, 2), (0, 0));
    let mut h = Graph::new();
    h.add_red_edge(1, 2);
    assert_eq!(h.count_merge(1, 2), (1, 0));
    assert_eq!(h.count_merge(2, 1), (1, 0));
}

#[test]
fn count_merge_of_a_vertex_with_itself() {
    let mut g = path4();
    g.add_red_edge(2, 4);
    assert_eq!(g.count_merge(2, 2), (1, 1));
    assert_eq!(g.count_merge(1, 1), (0, 0));
}

#[test]
fn count_merge_does_not_change_the_graph() {
    let g = path4();
    let _ = g.count_merge(1, 4);
    let _ = g.count_merge(2, 3);
    assert_eq!(g.vertices(), vec![1, 2, 3, 4]);
    assert_eq!(g.black_neighbors(1), vec![2]);
    assert_eq!(g.black_neighbors(2), vec![1, 3]);
    assert_eq!(g.black_neighbors(3), vec![2, 4]);
    assert_eq!(g.black_neighbors(4), vec![3]);
    for u in 1..=4 {
        assert_eq!(g.red_neighbors(u), Vec::<u32>::new());
    }
}

#[test]
fn merge_of_path_ends() {
    let mut g = path4();
    g.merge(1, 4);
    assert_eq!(g.vertices(), vec![1, 2, 3]);
    assert!(!g.has_vertex(4));
    assert_eq!(g.red_neighbors(1), vec![2, 3]);
    assert_eq!(g.black_neighbors(1), Vec::<u32>::new());
    assert_eq!(g.red_neighbors(2), vec![1]);
    assert_eq!(g.black_neighbors(2), vec![3]);
    assert_eq!(g.red_neighbors(3), vec![1]);
    assert_eq!(g.black_neighbors(3), vec![2]);
    assert_invariant(&g);
}

#[test]
fn merge_keeps_common_black_neighbors() {
    let mut g = Graph::new();
    g.add_black_edge(1, 2);
    g.add_black_edge(2, 3);
    g.add_black_edge(1, 3);
    g.merge(1, 2);
    assert_eq!(g.vertices(), vec![1, 3]);
    assert_eq!(g.black_neighbors(1), vec![3]);
    assert_eq!(g.black_neighbors(3), vec![1]);
    assert_eq!(g.red_neighbors(1), Vec::<u32>::new());
    assert_eq!(g.red_neighbors(3), Vec::<u32>::new());
    assert_invariant(&g);
}

#[test]
fn merge_keeps_the_survivor_without_neighbors() {
    let mut g = Graph::new();
    g.add_black_edge(1, 2);
    g.add_black_edge(3, 4);
    g.merge(1, 2);
    assert_eq!(g.vertices(), vec![1, 3, 4]);
    assert!(g.has_vertex(1));
    assert_eq!(g.red_neighbors(1), Vec::<u32>::new());
    assert_eq!(g.black_neighbors(1), Vec::<u32>::new());
    assert_eq!(g.count_merge(1, 3), (0, 1));
}

#[test]
fn merge_turns_agreeing_red_into_red() {
    let mut g = Graph::new();
    g.add_red_edge(1, 3);
    g.add_red_edge(2, 3);
    g.add_black_edge(1, 4);
    g.add_red_edge(2, 4);
    g.merge(2, 1);
    assert_eq!(g.vertices(), vec![2, 3, 4]);
    assert_eq!(g.red_neighbors(2), vec![3, 4]);
    assert_eq!(g.black_neighbors(2), Vec::<u32>::new());
    assert_eq!(g.red_neighbors(3), vec![2]);
    assert_eq!(g.red_neighbors(4), vec![2]);
    assert_eq!(g.black_neighbors(4), Vec::<u32>::new());
    assert_invariant(&g);
}

#[test]
fn merge_removes_a_merged_vertex_with_a_loop() {
    let mut g = Graph::new();
    g.add_black_edge(2, 2);
    g.add_black_edge(1, 2);
    g.merge(1, 2);
    assert_eq!(g.vertices(), vec![1]);
    assert!(!g.has_vertex(2));
    assert_eq!(g.black_neighbors(1), Vec::<u32>::new());
    assert_eq!(g.red_neighbors(1), Vec::<u32>::new());
}

#[test]
fn merge_keeps_a_loop_of_the_survivor_that_both_had() {
    let mut g = Graph::new();
    g.add_black_edge(1, 1);
    g.add_black_edge(1, 2);
    g.merge(1, 2);
    assert_eq!(g.vertices(), vec![1]);
    assert_eq!(g.black_neighbors(1), vec![1]);
    assert_invariant(&g);
}

#[test]
fn red_degree_after_merge_is_the_projected_one() {
    let edges: [(u32, u32); 7] = [(1, 2), (2, 3), (3, 4), (4, 5), (5, 1), (2, 6), (6, 7)];
    for u in 1..=7u32 {
        for v in 1..=7u32 {
            if u == v {
                continue;
            }
            let mut g = Graph::new();
            for (a, b) in edges {
                g.add_black_edge(a, b);
            }
            g.merge(3, 4);
            if u == 4 || v == 4 {
                continue;
            }
            let (_, projected) = g.count_merge(u, v);
            g.merge(u, v);
            assert_eq!(g.red_neighbors(u).len(), projected as usize, "merge({u}, {v})");
            let (now, _) = g.count_merge(u, u);
            assert_eq!(now, projected);
            assert!(!g.has_vertex(v));
            assert_invariant(&g);
        }
    }
}

#[test]
fn vertices_come_in_ascending_order() {
    let mut g = Graph::new();
    g.add_black_edge(40, 7);
    g.add_black_edge(3, 1000);
    g.add_black_edge(7, 3);
    g.add_red_edge(0, 4_000_000_000);
    assert_eq!(g.vertices(), vec![0, 3, 7, 40, 1000, 4_000_000_000]);
    assert_eq!(g.black_neighbors(7), vec![3, 40]);
}
