use tsp_anneal::graph::{Graph, GraphError};
use tsp_anneal::rng::Rng;

fn example_graph() -> Graph {
    // n=4, edges (1,2,5), (2,3,3), (3,4,7), (1,4,2)
    let text = b"4\n1, 2, 5\n2, 3, 3\n3, 4, 7\n1, 4, 2\n".to_vec();
    tsp_anneal::codec::parse_edge_list(&text).unwrap()
}

#[test]
fn distance_is_symmetric_and_zero_on_diagonal() {
    let g = example_graph();
    for a in 0..=4usize {
        for b in 0..=4usize {
            assert_eq!(g.distance(a, b), g.distance(b, a));
        }
        assert_eq!(g.distance(a, a), 0);
    }
    assert_eq!(g.distance(1, 2), 5);
    assert_eq!(g.distance(2, 1), 5);
}

#[test]
fn example_path_and_cycle_costs() {
    let mut g = example_graph();
    g.set_zero_to_max();
    let tour: Vec<usize> = vec![1, 2, 3, 4];
    assert_eq!(g.distance_vec(&tour), 15);
    assert_eq!(g.distance_cycle(&tour), 17);
}

#[test]
fn cycle_cost_is_path_cost_plus_closing_edge() {
    let mut g = example_graph();
    g.set_zero_to_max();
    let tours: Vec<Vec<usize>> = vec![
        vec![1],
        vec![2, 4],
        vec![1, 2, 3, 4],
        vec![4, 2, 1, 3],
        vec![3, 1, 4, 2],
    ];
    for tour in tours {
        let first = *tour.first().unwrap();
        let last = *tour.last().unwrap();
        assert_eq!(
            g.distance_cycle(&tour),
            g.distance_vec(&tour) + g.distance(last, first) as u64
        );
    }
}

#[test]
fn set_zero_to_max_installs_sentinels_off_diagonal() {
    let mut g = example_graph();
    assert_eq!(g.distance(1, 3), 0);
    assert!(!g.connected((1, 3)));
    g.set_zero_to_max();
    assert_eq!(g.distance(1, 3), u32::MAX);
    assert_eq!(g.distance(2, 4), u32::MAX);
    assert_eq!(g.distance(1, 2), 5);
    for a in 0..=4usize {
        assert_eq!(g.distance(a, a), 0);
    }
}

#[test]
fn random_graph_has_spanning_edges_and_is_connected() {
    let mut rng = Rng::from_seed(42);
    let g = Graph::generate_random_complete_graph(8, 1, 10, 5, &mut rng).unwrap();
    assert_eq!(g.number_of_vertex(), 8);
    // every vertex above 1 has an edge to a smaller one: >= n-1 edges
    for i in 2..=8usize {
        assert!((1..i).any(|j| g.connected((i, j))), "vertex {i} has no tree edge");
    }
    // count undirected edges
    let mut edges = 0;
    for i in 2..=8usize {
        for j in 1..i {
            if g.connected((i, j)) {
                edges += 1;
            }
        }
    }
    assert!(edges >= 7);
    // weights drawn from the requested range
    for i in 1..=8usize {
        for j in 1..=8usize {
            let w = g.distance(i, j);
            assert!(w == 0 || (1..10).contains(&w));
        }
    }
    // reachability from vertex 1 over nonzero edges
    let mut seen = vec![false; 9];
    seen[1] = true;
    let mut stack = vec![1usize];
    while let Some(v) = stack.pop() {
        for u in 1..=8usize {
            if !seen[u] && g.connected((v, u)) {
                seen[u] = true;
                stack.push(u);
            }
        }
    }
    assert!(seen[1..=8].iter().all(|&b| b), "random graph is not connected");
}

#[test]
fn too_many_additional_edges_fail_deterministically() {
    let mut rng = Rng::from_seed(7);
    // n = 4: a complete graph holds 6 edges, the tree takes 3, so 3 more fit
    let r = Graph::generate_random_complete_graph(4, 1, 10, 4, &mut rng);
    assert_eq!(r.unwrap_err(), GraphError::TooManyEdges);
    let ok = Graph::generate_random_complete_graph(4, 1, 10, 3, &mut rng);
    assert!(ok.is_ok());
}

#[test]
fn seeded_generators_repeat_their_stream() {
    let mut a = Rng::from_seed(123);
    let mut b = Rng::from_seed(123);
    for _ in 0..100 {
        let lo_hi = (3u64, 1000u64);
        let x = a.next_in(lo_hi.0, lo_hi.1);
        let y = b.next_in(lo_hi.0, lo_hi.1);
        assert_eq!(x, y);
        assert!((lo_hi.0..lo_hi.1).contains(&x));
    }
}
