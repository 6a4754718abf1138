use gpug::generate_nodes;
use gpug::generate_watts_strogatz_graph;
use gpug::generators::utils::Viewport;
use gpug::sim::SimParams;
use gpug::Graph;

const SCALE: i64 = 1024;

fn standard_params() -> SimParams {
    SimParams {
        repulsion: 120 * (SCALE as u64) * (SCALE as u64),
        attraction: 1966,
        gravity: 393,
        damping: 55706,
        dt: 32768,
        max_disp: 5 * SCALE as u32,
        center_x: 800 * SCALE,
        center_y: 200 * SCALE,
        eps: 10486,
        cell_size: 100 * SCALE,
    }
}

fn standard_viewport() -> Viewport {
    Viewport { left: 50 * SCALE, top: 50 * SCALE, width: 1200 * SCALE, height: 800 * SCALE }
}

#[test]
fn engine_starts_paused_and_paused_steps_change_nothing() {
    let nodes = generate_nodes(10, 11, &standard_viewport());
    let edges = generate_watts_strogatz_graph(10, 2, 0, 22);
    let mut g = Graph::new(nodes, edges, 2, 0, 22);
    assert!(!g.playing);
    assert_eq!(g.sim_tick, 0);
    let before: Vec<(i64, i64)> = g.nodes.iter().map(|n| (n.x, n.y)).collect();
    let p = standard_params();
    g.step(&p);
    g.step(&p);
    let after: Vec<(i64, i64)> = g.nodes.iter().map(|n| (n.x, n.y)).collect();
    assert_eq!(before, after);
    assert_eq!(g.sim_tick, 0);
}

#[test]
fn running_steps_advance_the_tick_counter() {
    let nodes = generate_nodes(10, 11, &standard_viewport());
    let edges = generate_watts_strogatz_graph(10, 2, 0, 22);
    let mut g = Graph::new(nodes, edges, 2, 0, 22);
    g.set_running(true);
    assert!(g.playing);
    let p = standard_params();
    g.step(&p);
    g.step(&p);
    g.step(&p);
    assert_eq!(g.sim_tick, 3);
    g.set_running(false);
    g.step(&p);
    assert_eq!(g.sim_tick, 3);
}

#[test]
fn stability_ring_lattice_stays_bounded_over_500_ticks() {
    let n = 10;
    let nodes = generate_nodes(n, 0xCAFEBABEDEADBEEF, &standard_viewport());
    let edges = generate_watts_strogatz_graph(n, 2, 0, 0xBADC0FFE_E0DDF00D);
    let mut g = Graph::new(nodes, edges, 2, 0, 0xBADC0FFE_E0DDF00D);
    g.set_running(true);
    let p = standard_params();
    for _ in 0..500 {
        g.step(&p);
    }
    assert_eq!(g.sim_tick, 500);
    let radius = 400 * SCALE;
    let mut max_dx: i64 = 0;
    let mut max_dy: i64 = 0;
    for nd in &g.nodes {
        max_dx = max_dx.max((nd.x - p.center_x).abs());
        max_dy = max_dy.max((nd.y - p.center_y).abs());
    }
    assert!(
        max_dx <= radius && max_dy <= radius,
        "max drift from center: ({}, {}) units",
        max_dx,
        max_dy
    );
}

#[test]
fn max_k_follows_node_count() {
    let nodes = generate_nodes(5, 1, &standard_viewport());
    let g = Graph::new(nodes, Vec::new(), 1, 0, 1);
    assert_eq!(g.max_k(), 2);
    let empty = Graph::new(Vec::new(), Vec::new(), 1, 0, 1);
    assert_eq!(empty.max_k(), 1);
}

#[test]
fn adjust_k_clamps_and_regenerates() {
    let nodes = generate_nodes(5, 1, &standard_viewport());
    let edges = generate_watts_strogatz_graph(5, 1, 0, 1);
    let mut g = Graph::new(nodes, edges, 1, 0, 1);
    g.adjust_k(10);
    assert_eq!(g.k, 2, "degree must clamp to floor((5 - 1) / 2)");
    assert_eq!(g.edges.len(), 10);
    g.adjust_k(-10);
    assert_eq!(g.k, 1);
    assert_eq!(g.edges.len(), 5);
}

#[test]
fn adjust_k_does_nothing_below_two_nodes() {
    let nodes = generate_nodes(1, 1, &standard_viewport());
    let mut g = Graph::new(nodes, Vec::new(), 1, 0, 1);
    g.adjust_k(3);
    assert_eq!(g.k, 1);
    assert!(g.edges.is_empty());
}

#[test]
fn adjust_beta_clamps_to_probability_range() {
    let nodes = generate_nodes(6, 1, &standard_viewport());
    let edges = generate_watts_strogatz_graph(6, 1, 0, 1);
    let mut g = Graph::new(nodes, edges, 1, 0, 1);
    g.adjust_beta(-5);
    assert_eq!(g.beta, 0, "probability must clamp at zero");
    g.adjust_beta(i64::MAX);
    assert_eq!(g.beta, u32::MAX, "probability must clamp at one");
    assert_eq!(g.edges.len(), 6, "regeneration must preserve the edge count");
    g.adjust_beta(-(u32::MAX as i64));
    assert_eq!(g.beta, 0);
    assert_eq!(g.edges.len(), 6);
}

#[test]
fn set_topology_params_replaces_the_edge_set() {
    let nodes = generate_nodes(10, 4, &standard_viewport());
    let edges = generate_watts_strogatz_graph(10, 2, 0, 4);
    let mut g = Graph::new(nodes, edges, 2, 0, 4);
    let before: Vec<(i64, i64)> = g.nodes.iter().map(|n| (n.x, n.y)).collect();
    g.set_topology_params(3, 7);
    assert_eq!(g.k, 3);
    assert_eq!(g.beta, 7);
    assert_eq!(g.edges.len(), 30);
    let after: Vec<(i64, i64)> = g.nodes.iter().map(|n| (n.x, n.y)).collect();
    assert_eq!(before, after, "positions must survive a topology change");
    let regenerated = generate_watts_strogatz_graph(10, 3, 7, 4);
    for (a, b) in g.edges.iter().zip(regenerated.iter()) {
        assert_eq!((a.source, a.target), (b.source, b.target));
    }
}
