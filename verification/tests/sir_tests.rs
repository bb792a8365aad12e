use sir_graph::graph::Unweighted;
use sir_graph::sim::SimulationResult;
use sir_graph::trans::Alpha;
use sir_graph::trans::SimRng;

const DEMO_EDGES: [[usize; 2]; 15] = [
    [0, 7],
    [0, 9],
    [0, 11],
    [7, 11],
    [7, 6],
    [7, 3],
    [6, 5],
    [3, 4],
    [2, 3],
    [2, 12],
    [12, 8],
    [8, 1],
    [1, 10],
    [10, 9],
    [9, 8],
];

fn row(g: &Unweighted, u: usize) -> Vec<usize> {
    let mut out = Vec::new();
    for j in 0..g.degree(u) {
        out.push(g.neighbor(u, j));
    }
    out
}

#[test]
fn zero_alpha_gives_one_one_one_on_demo_graph() {
    let g = Unweighted::new_undirected(13, &DEMO_EDGES);
    let mut rng = SimRng::new(7);
    for seed in 0..13 {
        let r = g.SIR(seed, Alpha::Zero, &mut rng);
        assert_eq!(r.peak_concurrent_infected, 1);
        assert_eq!(r.duration_steps, 1);
        assert_eq!(r.total_ever_infected, 1);
    }
}

#[test]
fn zero_alpha_gives_one_one_one_on_lattice() {
    let mut g = Unweighted::init(128);
    g.ring_graph(2, 3);
    let mut rng = SimRng::new(99);
    let r = g.SIR(17, Alpha::Zero, &mut rng);
    assert_eq!(
        r,
        SimulationResult {
            peak_concurrent_infected: 1,
            duration_steps: 1,
            total_ever_infected: 1
        }
    );
}

#[test]
fn out_of_range_seed_yields_zero_result() {
    let g = Unweighted::new_undirected(13, &DEMO_EDGES);
    let mut rng = SimRng::new(3);
    let r = g.SIR(13, Alpha::One, &mut rng);
    assert_eq!(r.peak_concurrent_infected, 0);
    assert_eq!(r.duration_steps, 0);
    assert_eq!(r.total_ever_infected, 0);
}

#[test]
fn out_of_range_seed_on_empty_graph() {
    let g = Unweighted::init(0);
    let mut rng = SimRng::new(3);
    let r = g.SIR(0, Alpha::Scaled(u64::MAX / 2), &mut rng);
    assert_eq!(r.peak_concurrent_infected, 0);
    assert_eq!(r.duration_steps, 0);
    assert_eq!(r.total_ever_infected, 0);
}

#[test]
fn statistics_never_exceed_population() {
    let mut g = Unweighted::init(128);
    g.ring_graph(2, 3);
    for seed_val in [1u64, 2, 3, 4, 5] {
        let mut rng = SimRng::new(seed_val);
        let r = g.SIR(0, Alpha::Scaled(u64::MAX / 3), &mut rng);
        assert!(r.peak_concurrent_infected >= 1);
        assert!(r.peak_concurrent_infected <= r.total_ever_infected);
        assert!(r.duration_steps >= 1);
        assert!(r.duration_steps <= r.total_ever_infected);
        assert!(r.total_ever_infected <= 128);
    }
}

#[test]
fn ring_lattice_degrees_and_tally() {
    let mut g = Unweighted::init(128);
    g.ring_graph(2, 3);
    assert_eq!(g.vertex_count(), 128);
    for u in 0..128 {
        assert_eq!(g.degree(u), 12);
    }
    assert_eq!(g.edge_count(), 1536);
}

#[test]
fn ring_lattice_row_contents() {
    let mut g = Unweighted::init(128);
    g.ring_graph(2, 3);
    assert_eq!(row(&g, 0), vec![1, 127, 1, 127, 1, 127, 2, 126, 2, 126, 2, 126]);
    assert_eq!(row(&g, 127), vec![0, 126, 0, 126, 0, 126, 1, 125, 1, 125, 1, 125]);
}

#[test]
fn ring_lattice_radius_clamped() {
    let mut g = Unweighted::init(4);
    // radius 6 over 4 vertices clamps to 2
    g.ring_graph(6, 1);
    for u in 0..4 {
        assert_eq!(g.degree(u), 4);
    }
    assert_eq!(g.edge_count(), 16);
}

#[test]
fn certain_transmission_walks_the_path() {
    let g = Unweighted::new_undirected(3, &[[0, 1], [1, 2]]);
    let mut rng = SimRng::new(11);
    let r = g.SIR(0, Alpha::One, &mut rng);
    assert_eq!(r.peak_concurrent_infected, 1);
    assert_eq!(r.duration_steps, 3);
    assert_eq!(r.total_ever_infected, 3);
}

#[test]
fn certain_transmission_layers_the_demo_graph() {
    // breadth-first layers from vertex 0: {0}, {7,9,11}, {6,3,10,8}, {5,4,2,1,12}
    let g = Unweighted::new_undirected(13, &DEMO_EDGES);
    let mut rng = SimRng::new(11);
    let r = g.SIR(0, Alpha::One, &mut rng);
    assert_eq!(r.total_ever_infected, 13);
    assert_eq!(r.duration_steps, 4);
    assert_eq!(r.peak_concurrent_infected, 5);
}

#[test]
fn remove_then_add_restores_multiplicity() {
    let mut g = Unweighted::new_undirected(13, &DEMO_EDGES);
    let before: Vec<Vec<usize>> = (0..13)
        .map(|u| {
            let mut r = row(&g, u);
            r.sort();
            r
        })
        .collect();
    g.remove_edges(0, 7);
    g.add_undirected_edge(0, 7);
    let after: Vec<Vec<usize>> = (0..13)
        .map(|u| {
            let mut r = row(&g, u);
            r.sort();
            r
        })
        .collect();
    assert_eq!(before, after);
}

#[test]
fn remove_edge_takes_first_occurrence_only() {
    let mut g = Unweighted::init(2);
    g.add_edge(0, 1);
    g.add_edge(0, 1);
    g.remove_edge(0, 1);
    assert_eq!(row(&g, 0), vec![1]);
    g.remove_edge(0, 1);
    assert_eq!(row(&g, 0), Vec::<usize>::new());
    // removing an absent edge is a no-op
    g.remove_edge(0, 1);
    assert_eq!(row(&g, 0), Vec::<usize>::new());
}

#[test]
fn graph_building_blocks() {
    let mut g = Unweighted::init(0);
    assert!(g.is_empty());
    assert_eq!(g.add_vertex(), 0);
    assert_eq!(g.add_vertex(), 1);
    assert!(!g.is_empty());
    g.add_undirected_edge(0, 1);
    assert_eq!(g.edge_count(), 1);
    assert_eq!(row(&g, 0), vec![1]);
    assert_eq!(row(&g, 1), vec![0]);
    g.clear_graph();
    assert_eq!(g.vertex_count(), 2);
    assert_eq!(g.degree(0), 0);
    assert_eq!(g.edge_count(), 1);
    g.kill_graph();
    assert!(g.is_empty());
}

#[test]
fn undirected_construction_is_symmetric() {
    let g = Unweighted::new_undirected(13, &DEMO_EDGES);
    assert_eq!(g.vertex_count(), 13);
    assert_eq!(g.edge_count(), 15);
    for u in 0..13 {
        for j in 0..g.degree(u) {
            let v = g.neighbor(u, j);
            assert!(row(&g, v).contains(&u));
        }
    }
    assert_eq!(row(&g, 0), vec![7, 9, 11]);
}

#[test]
fn transmission_trial_endpoints() {
    let mut rng = SimRng::new(5);
    assert!(!Unweighted::infected(10, Alpha::Zero, &mut rng));
    assert!(!Unweighted::infected(0, Alpha::One, &mut rng));
    assert!(Unweighted::infected(1, Alpha::One, &mut rng));
    assert!(Unweighted::infected(10, Alpha::One, &mut rng));
    assert!(!Unweighted::infected(10, Alpha::Scaled(0), &mut rng));
}

#[test]
fn set_colour_fills_population() {
    let clr = Unweighted::set_colour(2, 5);
    assert_eq!(clr, vec![2, 2, 2, 2, 2]);
    assert_eq!(Unweighted::set_colour(0, 0), Vec::<u32>::new());
}

#[test]
fn runs_reproduce_under_a_fixed_seed() {
    let mut g = Unweighted::init(128);
    g.ring_graph(2, 3);
    let mut rng_a = SimRng::new(42);
    let mut rng_b = SimRng::new(42);
    let a = g.SIR(5, Alpha::Scaled(u64::MAX / 4), &mut rng_a);
    let b = g.SIR(5, Alpha::Scaled(u64::MAX / 4), &mut rng_b);
    assert_eq!(a, b);
}

#[test]
fn reopen_fitness_matches_plain_run_semantics() {
    let g = Unweighted::new_undirected(13, &DEMO_EDGES);
    let mut rng = SimRng::new(1);
    let r = g.reopen_fitness(4, 13, Alpha::Zero, 10, 5, &mut rng);
    assert_eq!(r.peak_concurrent_infected, 1);
    assert_eq!(r.duration_steps, 1);
    assert_eq!(r.total_ever_infected, 1);
    let z = g.reopen_fitness(20, 13, Alpha::One, 10, 5, &mut rng);
    assert_eq!(z.total_ever_infected, 0);
}
