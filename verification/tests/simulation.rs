use gpug::edge::GpugEdge;
use gpug::generate_nodes;
use gpug::generators::utils::Viewport;
use gpug::grid::build_grid;
use gpug::node::GpugNode;
use gpug::num::COORD_LIMIT;
use gpug::sim::clamp_displacement;
use gpug::sim::tick;
use gpug::sim::SimParams;

fn quiet_params() -> SimParams {
    SimParams {
        repulsion: 0,
        attraction: 0,
        gravity: 0,
        damping: 65536,
        dt: 65536,
        max_disp: 1000,
        center_x: 0,
        center_y: 0,
        eps: 1,
        cell_size: 100,
    }
}

#[test]
fn viewport_check_matches_bounds() {
    let good = Viewport { left: -10, top: -10, width: 20, height: 20 };
    assert!(good.check());
    let bad = Viewport { left: 0, top: 0, width: -1, height: 5 };
    assert!(!bad.check());
}

#[test]
fn scatter_places_nodes_inside_viewport() {
    let vp = Viewport { left: 51200, top: 51200, width: 1228800, height: 819200 };
    let nodes = generate_nodes(100, 0xCAFEBABEDEADBEEF, &vp);
    assert_eq!(nodes.len(), 100);
    for (i, nd) in nodes.iter().enumerate() {
        assert_eq!(nd.id, (i as u64) + 1);
        assert!(vp.left <= nd.x && nd.x < vp.left + vp.width);
        assert!(vp.top <= nd.y && nd.y < vp.top + vp.height);
    }
}

#[test]
fn scatter_is_deterministic() {
    let vp = Viewport { left: 0, top: 0, width: 1000, height: 1000 };
    let a = generate_nodes(25, 7, &vp);
    let b = generate_nodes(25, 7, &vp);
    for (x, y) in a.iter().zip(b.iter()) {
        assert_eq!((x.id, x.x, x.y), (y.id, y.x, y.y));
    }
}

#[test]
fn grid_enumerates_all_pairs_in_one_cell() {
    let xs: Vec<i64> = vec![0, 10, 20];
    let ys: Vec<i64> = vec![0, 10, 20];
    let grid = build_grid(&xs, &ys, 100);
    assert_eq!(grid.neighbors_after(0), vec![1, 2]);
    assert_eq!(grid.neighbors_after(1), vec![2]);
    assert_eq!(grid.neighbors_after(2), Vec::<usize>::new());
}

#[test]
fn grid_sees_neighbors_across_cell_borders_and_negative_cells() {
    let xs: Vec<i64> = vec![-1, 1];
    let ys: Vec<i64> = vec![0, 0];
    let grid = build_grid(&xs, &ys, 10);
    assert_eq!(grid.neighbors_after(0), vec![1]);
}

#[test]
fn grid_skips_far_apart_nodes() {
    let xs: Vec<i64> = vec![0, 1000];
    let ys: Vec<i64> = vec![0, 0];
    let grid = build_grid(&xs, &ys, 100);
    assert_eq!(grid.neighbors_after(0), Vec::<usize>::new());
}

#[test]
fn clamp_keeps_small_displacements_unchanged() {
    assert_eq!(clamp_displacement(3, 4, 5), (3, 4));
    assert_eq!(clamp_displacement(-3, -4, 5), (-3, -4));
    assert_eq!(clamp_displacement(0, 0, 5), (0, 0));
}

#[test]
fn clamp_rescales_preserving_direction() {
    assert_eq!(clamp_displacement(30, 40, 5), (3, 4));
    assert_eq!(clamp_displacement(-30, 40, 5), (-3, 4));
}

#[test]
fn clamp_bounds_arbitrarily_large_inputs() {
    let huge = i128::MAX / 3;
    for &(dx, dy) in &[(huge, huge), (i128::MIN + 1, huge), (huge, 0), (0, -huge)] {
        let (rx, ry) = clamp_displacement(dx, dy, 5);
        let mag2 = (rx as i64) * (rx as i64) + (ry as i64) * (ry as i64);
        assert!(mag2 <= 25, "displacement magnitude exceeded max_disp");
    }
}

#[test]
fn gravity_pulls_straight_to_center() {
    let nodes = vec![GpugNode::new(1, 100, 0)];
    let edges: Vec<GpugEdge> = Vec::new();
    let mut p = quiet_params();
    p.gravity = 65536;
    p.max_disp = 200;
    let out = tick(&nodes, &edges, &p);
    assert_eq!((out[0].x, out[0].y), (0, 0));
    assert_eq!(out[0].id, 1);
}

#[test]
fn gravity_step_is_clamped_to_max_disp() {
    let nodes = vec![GpugNode::new(1, 100, 0)];
    let edges: Vec<GpugEdge> = Vec::new();
    let mut p = quiet_params();
    p.gravity = 65536;
    p.max_disp = 5;
    let out = tick(&nodes, &edges, &p);
    assert_eq!((out[0].x, out[0].y), (95, 0));
}

#[test]
fn repulsion_pushes_a_close_pair_apart() {
    let nodes = vec![GpugNode::new(1, 0, 0), GpugNode::new(2, 10, 0)];
    let edges: Vec<GpugEdge> = Vec::new();
    let mut p = quiet_params();
    p.repulsion = 1000;
    let out = tick(&nodes, &edges, &p);
    // pair force: floor(1000 * 10 / (100 + 1)) = 99, applied oppositely
    assert_eq!((out[0].x, out[0].y), (-99, 0));
    assert_eq!((out[1].x, out[1].y), (109, 0));
}

#[test]
fn attraction_pulls_edge_endpoints_together() {
    let nodes = vec![GpugNode::new(1, 0, 0), GpugNode::new(2, 100, 0)];
    let edges = vec![GpugEdge::new(0, 1)];
    let mut p = quiet_params();
    p.attraction = 6554;
    // keep the pair out of repulsion range so only the spring acts
    p.cell_size = 1;
    let out = tick(&nodes, &edges, &p);
    // spring force: floor(6554 * 100 / 65536) = 10, applied oppositely
    assert_eq!((out[0].x, out[0].y), (10, 0));
    assert_eq!((out[1].x, out[1].y), (90, 0));
}

#[test]
fn out_of_range_edge_is_skipped() {
    let nodes = vec![GpugNode::new(1, 50, 60)];
    let edges = vec![GpugEdge::new(0, 5)];
    let mut p = quiet_params();
    p.attraction = 65536;
    let out = tick(&nodes, &edges, &p);
    assert_eq!((out[0].x, out[0].y), (50, 60));
}

#[test]
fn tick_does_not_mutate_its_inputs_and_is_deterministic() {
    let vp = Viewport { left: 0, top: 0, width: 100000, height: 100000 };
    let nodes = generate_nodes(30, 3, &vp);
    let edges = gpug::generate_watts_strogatz_graph(30, 2, 1 << 30, 9);
    let mut p = quiet_params();
    p.repulsion = 1 << 20;
    p.attraction = 1966;
    p.gravity = 393;
    p.damping = 55706;
    p.dt = 32768;
    p.max_disp = 5120;
    p.cell_size = 102400;
    let before: Vec<(i64, i64)> = nodes.iter().map(|n| (n.x, n.y)).collect();
    let a = tick(&nodes, &edges, &p);
    let after: Vec<(i64, i64)> = nodes.iter().map(|n| (n.x, n.y)).collect();
    assert_eq!(before, after, "tick mutated its input");
    let b = tick(&nodes, &edges, &p);
    for (x, y) in a.iter().zip(b.iter()) {
        assert_eq!((x.x, x.y), (y.x, y.y));
    }
}

#[test]
fn positions_are_kept_inside_the_world_box() {
    let nodes = vec![
        GpugNode::new(1, COORD_LIMIT - 1, 0),
        GpugNode::new(2, COORD_LIMIT, 0),
    ];
    let edges: Vec<GpugEdge> = Vec::new();
    let mut p = quiet_params();
    p.repulsion = 1000;
    p.max_disp = 1000;
    let out = tick(&nodes, &edges, &p);
    // pair force: floor(1000 * 1 / (1 + 1)) = 500; the right node would
    // leave the world box and is clamped onto its edge
    assert_eq!(out[0].x, COORD_LIMIT - 1 - 500);
    assert_eq!(out[1].x, COORD_LIMIT);
}
