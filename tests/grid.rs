use isl_topology::{add_edge, ConnectionStrategy, ConstellationLayout, GridStrategy, Topology, TopologyError};
use petgraph::graphmap::GraphMap;

fn layout(satellites: usize, orbital_planes: usize) -> ConstellationLayout {
    ConstellationLayout { satellites, orbital_planes }
}

fn build(satellites: usize, orbital_planes: usize) -> Topology {
    GridStrategy::new().run(&layout(satellites, orbital_planes)).expect("a valid layout")
}

fn sorted_edges(g: &Topology) -> Vec<(usize, usize)> {
    let mut edges: Vec<(usize, usize)> =
        g.all_edges().map(|(a, b, _)| if a <= b { (a, b) } else { (b, a) }).collect();
    edges.sort();
    edges
}

fn degree(g: &Topology, x: usize) -> usize {
    g.neighbors(x).count()
}

#[test]
fn eight_satellites_two_planes() {
    let g = build(8, 2);
    assert_eq!(g.node_count(), 8);
    let expected = vec![
        (0, 1), (0, 3), (0, 4), (1, 2), (1, 5), (2, 3), (2, 6), (3, 7),
        (4, 5), (4, 7), (5, 6), (6, 7),
    ];
    assert_eq!(sorted_edges(&g), expected);
    assert_eq!(g.edge_count(), 12);
    for x in 0..8 {
        assert_eq!(degree(&g, x), 3);
    }
}

#[test]
fn full_grid_has_degree_four() {
    let g = build(12, 3);
    assert_eq!(g.node_count(), 12);
    assert_eq!(g.edge_count(), 24);
    for x in 0..12 {
        assert_eq!(degree(&g, x), 4);
    }
    assert!(g.contains_edge(0, 3));
    assert!(g.contains_edge(0, 1));
    assert!(g.contains_edge(0, 4));
    assert!(g.contains_edge(0, 8));
    assert!(g.contains_edge(11, 3));
    assert!(g.contains_edge(11, 8));
    assert!(!g.contains_edge(0, 2));
}

#[test]
fn larger_full_grid_has_degree_four() {
    let g = build(35, 5);
    assert_eq!(g.node_count(), 35);
    assert_eq!(g.edge_count(), 70);
    for x in 0..35 {
        assert_eq!(degree(&g, x), 4);
    }
}

#[test]
fn single_plane_has_no_self_loop() {
    let g = build(4, 1);
    assert_eq!(g.node_count(), 4);
    assert_eq!(sorted_edges(&g), vec![(0, 1), (0, 3), (1, 2), (2, 3)]);
    for x in 0..4 {
        assert!(!g.contains_edge(x, x));
        assert_eq!(degree(&g, x), 2);
    }
}

#[test]
fn one_satellite_per_plane_has_no_self_loop() {
    let g = build(3, 3);
    assert_eq!(g.node_count(), 3);
    assert_eq!(sorted_edges(&g), vec![(0, 1), (0, 2), (1, 2)]);
    for x in 0..3 {
        assert!(!g.contains_edge(x, x));
    }
}

#[test]
fn lone_satellite_has_no_link() {
    let g = build(1, 1);
    assert_eq!(g.node_count(), 1);
    assert_eq!(g.edge_count(), 0);
    assert!(!g.contains_edge(0, 0));
}

#[test]
fn leftover_satellite_is_isolated() {
    let g = build(9, 2);
    assert_eq!(g.node_count(), 9);
    assert!(g.contains_node(8));
    assert_eq!(degree(&g, 8), 0);
    assert_eq!(sorted_edges(&g), sorted_edges(&build(8, 2)));
}

#[test]
fn several_leftover_satellites_are_isolated() {
    let g = build(14, 3);
    assert_eq!(g.node_count(), 14);
    assert_eq!(degree(&g, 12), 0);
    assert_eq!(degree(&g, 13), 0);
    for x in 0..12 {
        assert_eq!(degree(&g, x), 4);
    }
}

#[test]
fn no_planes_is_rejected() {
    let r = GridStrategy::new().run(&layout(8, 0));
    assert_eq!(r.err(), Some(TopologyError::NoOrbitalPlanes));
}

#[test]
fn fewer_satellites_than_planes_is_rejected() {
    let r = GridStrategy::new().run(&layout(2, 3));
    assert_eq!(r.err(), Some(TopologyError::FewerSatellitesThanPlanes));
    let r = GridStrategy::new().run(&layout(0, 1));
    assert_eq!(r.err(), Some(TopologyError::FewerSatellitesThanPlanes));
}

#[test]
fn running_again_gives_the_same_links() {
    let mut strategy = GridStrategy::new();
    let first = strategy.run(&layout(20, 4)).expect("a valid layout");
    let second = strategy.run(&layout(20, 4)).expect("a valid layout");
    assert_eq!(sorted_edges(&first), sorted_edges(&second));
    assert_eq!(first.node_count(), second.node_count());
}

#[test]
fn strategy_works_behind_a_trait_object() {
    let mut strategy: Box<dyn ConnectionStrategy> = Box::new(GridStrategy::new());
    let g = strategy.run(&layout(6, 2)).expect("a valid layout");
    assert_eq!(sorted_edges(&g), vec![(0, 1), (0, 2), (0, 3), (1, 2), (1, 4), (2, 5), (3, 4), (3, 5), (4, 5)]);
}

#[test]
fn add_edge_links_both_ends() {
    let mut g: Topology = GraphMap::new();
    add_edge(&mut g, 2, 5);
    assert_eq!(g.node_count(), 2);
    assert!(g.contains_edge(2, 5));
    assert!(g.contains_edge(5, 2));
    assert_eq!(g.edge_count(), 1);
}

#[test]
fn add_edge_twice_keeps_one_link() {
    let mut g: Topology = GraphMap::new();
    add_edge(&mut g, 0, 4);
    add_edge(&mut g, 4, 0);
    add_edge(&mut g, 0, 4);
    assert_eq!(g.edge_count(), 1);
    assert_eq!(degree(&g, 0), 1);
    assert_eq!(degree(&g, 4), 1);
}

#[test]
fn add_edge_ignores_a_self_loop() {
    let mut g: Topology = GraphMap::new();
    add_edge(&mut g, 3, 3);
    assert_eq!(g.edge_count(), 0);
    assert_eq!(g.node_count(), 0);
    assert!(!g.contains_edge(3, 3));
}
