use gpug::edge::GpugEdge;
use gpug::generators::utils::rand_unit;
use gpug::generators::utils::rng_next;
use gpug::generators::watts_strogatz::effective_degree;
use gpug::generate_watts_strogatz_graph;

#[test]
fn edge_new_stores_endpoints() {
    let e = GpugEdge::new(3, 7);
    assert_eq!(e.source, 3);
    assert_eq!(e.target, 7);
}

#[test]
fn rng_is_deterministic_and_advances_state() {
    let mut a: u64 = 42;
    let mut b: u64 = 42;
    let ra = rng_next(&mut a);
    let rb = rng_next(&mut b);
    assert_eq!(ra, rb);
    assert_eq!(a, ra);
    assert_eq!(b, rb);
    assert_ne!(rng_next(&mut a), ra);
}

#[test]
fn rng_zero_state_uses_fallback() {
    let mut z: u64 = 0;
    let mut f: u64 = 0x9E3779B97F4A7C15;
    assert_eq!(rng_next(&mut z), rng_next(&mut f));
    assert_ne!(z, 0);
}

#[test]
fn rand_unit_is_deterministic() {
    let mut a: u64 = 7;
    let mut b: u64 = 7;
    assert_eq!(rand_unit(&mut a), rand_unit(&mut b));
    assert_eq!(a, b);
}

#[test]
fn effective_degree_clamps_to_half_node_count() {
    assert_eq!(effective_degree(5, 10), 2);
    assert_eq!(effective_degree(2, 9), 1);
    assert_eq!(effective_degree(10, 2), 2);
    assert_eq!(effective_degree(10, 0), 0);
    assert_eq!(effective_degree(1, 3), 0);
    assert_eq!(effective_degree(0, 3), 0);
}

#[test]
fn generated_edges_are_valid_for_many_inputs() {
    let betas: [u32; 4] = [0, 1 << 30, 1 << 31, u32::MAX];
    for &n in &[2usize, 3, 5, 10, 20, 41] {
        for &k in &[1usize, 2, 3, 9] {
            for &beta in &betas {
                let edges = generate_watts_strogatz_graph(n, k, beta, 0xBADC0FFE_E0DDF00D);
                for e in &edges {
                    assert!(e.source < e.target, "self-loop or swapped pair");
                    assert!(e.target < n, "endpoint out of range");
                }
                for w in edges.windows(2) {
                    let a = &w[0];
                    let b = &w[1];
                    assert!(
                        a.source < b.source || (a.source == b.source && a.target < b.target),
                        "not strictly sorted, so a pair repeats"
                    );
                }
            }
        }
    }
}

#[test]
fn degenerate_inputs_give_empty_edge_sets() {
    assert!(generate_watts_strogatz_graph(0, 3, 0, 1).is_empty());
    assert!(generate_watts_strogatz_graph(1, 3, 0, 1).is_empty());
    assert!(generate_watts_strogatz_graph(10, 0, 0, 1).is_empty());
}

#[test]
fn ring_lattice_n6_k1_is_the_cycle() {
    let edges = generate_watts_strogatz_graph(6, 1, 0, 99);
    let got: Vec<(usize, usize)> = edges.iter().map(|e| (e.source, e.target)).collect();
    assert_eq!(got, vec![(0, 1), (0, 5), (1, 2), (2, 3), (3, 4), (4, 5)]);
}

#[test]
fn ring_lattice_two_nodes_single_edge() {
    let edges = generate_watts_strogatz_graph(2, 1, 0, 5);
    assert_eq!(edges.len(), 1);
    assert_eq!((edges[0].source, edges[0].target), (0, 1));
}

#[test]
fn generation_is_deterministic() {
    let a = generate_watts_strogatz_graph(20, 3, 0, 12345);
    let b = generate_watts_strogatz_graph(20, 3, 0, 12345);
    assert_eq!(a.len(), b.len());
    for (x, y) in a.iter().zip(b.iter()) {
        assert_eq!((x.source, x.target), (y.source, y.target));
    }
    let beta = 1 << 30;
    let c = generate_watts_strogatz_graph(20, 3, beta, 777);
    let d = generate_watts_strogatz_graph(20, 3, beta, 777);
    assert_eq!(c.len(), d.len());
    for (x, y) in c.iter().zip(d.iter()) {
        assert_eq!((x.source, x.target), (y.source, y.target));
    }
}

#[test]
fn rewiring_preserves_edge_count() {
    for &n in &[5usize, 10, 20, 33] {
        for &k in &[1usize, 2, 3] {
            let base = generate_watts_strogatz_graph(n, k, 0, 1).len();
            for &beta in &[1u32 << 28, 1 << 31, u32::MAX] {
                let rewired = generate_watts_strogatz_graph(n, k, beta, 1);
                assert_eq!(
                    rewired.len(),
                    base,
                    "a removed edge was neither replaced nor restored"
                );
            }
        }
    }
}

#[test]
fn full_rewiring_changes_some_edge() {
    // With beta at the maximum, every forward edge of this ring is
    // reconsidered; for this seed the result differs from the plain ring.
    let ring = generate_watts_strogatz_graph(20, 3, 0, 42);
    let rewired = generate_watts_strogatz_graph(20, 3, u32::MAX, 42);
    assert_eq!(ring.len(), rewired.len());
    let same = ring
        .iter()
        .zip(rewired.iter())
        .all(|(a, b)| (a.source, a.target) == (b.source, b.target));
    assert!(!same, "maximum rewiring left the ring untouched");
}
