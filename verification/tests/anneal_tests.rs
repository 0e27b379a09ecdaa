use tsp_anneal::anneal::{acceptance_chance, annealing, metropolis_accept, AnnealConfig, ConfigError};
use tsp_anneal::graph::Graph;
use tsp_anneal::rng::Rng;

fn example_graph() -> Graph {
    let text = b"4\n1, 2, 5\n2, 3, 3\n3, 4, 7\n1, 4, 2\n".to_vec();
    let mut g = tsp_anneal::codec::parse_edge_list(&text).unwrap();
    g.set_zero_to_max();
    g
}

fn small_config() -> AnnealConfig {
    AnnealConfig {
        initial_temp_milli: 1_000_000,  // 1000.0
        era_len: 200,
        temp_floor_milli: 100,          // 0.1
        cooling_permille: 900,          // 0.9
    }
}

#[test]
fn cooling_multiplier_of_one_is_rejected() {
    let cfg = AnnealConfig { cooling_permille: 1000, ..small_config() };
    assert_eq!(cfg.validate(4).unwrap_err(), ConfigError::CoolingNotDecreasing);
    let g = example_graph();
    let mut rng = Rng::from_seed(1);
    assert_eq!(
        annealing(&g, 4, cfg, &mut rng).map(|_| ()).unwrap_err(),
        ConfigError::CoolingNotDecreasing
    );
}

#[test]
fn degenerate_configurations_are_rejected() {
    assert_eq!(
        AnnealConfig { cooling_permille: 1500, ..small_config() }.validate(4).unwrap_err(),
        ConfigError::CoolingNotDecreasing
    );
    assert_eq!(
        AnnealConfig { cooling_permille: 0, ..small_config() }.validate(4).unwrap_err(),
        ConfigError::CoolingZero
    );
    assert_eq!(
        AnnealConfig { temp_floor_milli: 0, ..small_config() }.validate(4).unwrap_err(),
        ConfigError::FloorZero
    );
    assert_eq!(
        AnnealConfig { initial_temp_milli: 0, ..small_config() }.validate(4).unwrap_err(),
        ConfigError::TemperatureZero
    );
    assert_eq!(
        AnnealConfig { initial_temp_milli: u64::MAX, ..small_config() }.validate(4).unwrap_err(),
        ConfigError::TemperatureTooHigh
    );
    assert_eq!(small_config().validate(1).unwrap_err(), ConfigError::TooFewVertices);
    assert!(small_config().validate(4).is_ok());
}

#[test]
fn near_zero_temperature_rejects_every_worsening_move() {
    // temperature 0.001: a cost increase of 1 gives delta / T = 1000 >= 8
    for draw in 1..=1000u32 {
        assert!(!metropolis_accept(10, 11, 1, draw));
        assert!(!metropolis_accept(0, 1, 1, draw));
    }
    // below a threshold of 0.125 no worsening move passes at all
    for draw in 1..=1000u32 {
        assert!(!metropolis_accept(100, 101, 125, draw));
    }
    // improving or equal moves are always taken, however cold
    assert!(metropolis_accept(10, 10, 1, 1000));
    assert!(metropolis_accept(10, 3, 1, 1000));
}

#[test]
fn acceptance_chance_matches_the_metropolis_shape() {
    // delta / T = 8 or more: probability rounds to zero thousandths
    assert_eq!(acceptance_chance(8, 1000), 0);
    assert_eq!(acceptance_chance(1000, 1000), 0);
    // delta / T = 1: exp(-1) = 0.3679: fixed point lands within a thousandth
    let c = acceptance_chance(1, 1000);
    assert!((366..=368).contains(&c), "exp(-1) approximation was {c}");
    // delta / T = 0.1: exp(-0.1) = 0.9048
    let c = acceptance_chance(100, 1_000_000);
    assert!((903..=906).contains(&c), "exp(-0.1) approximation was {c}");
    // a vanishing exponent accepts almost surely
    let c = acceptance_chance(1, 1_000_000_000_000);
    assert_eq!(c, 1000);
}

fn complete_five() -> Graph {
    let text = b"5
0 3 8 4 9
3 0 2 7 5
8 2 0 6 1
4 7 6 0 2
9 5 1 2 0
".to_vec();
    tsp_anneal::codec::parse_full_table(&text).unwrap()
}

#[test]
fn annealing_with_no_acceptable_move_keeps_the_identity_baseline() {
    // started cold (0.2), every candidate is a worsening move against
    // the identity ordering's open-path baseline of 15 (the cheapest
    // cycle costs 17), so nothing is ever accepted and the run ends on
    // the identity ordering with that baseline cost
    let g = example_graph();
    let mut rng = Rng::from_seed(99);
    let cold = AnnealConfig { initial_temp_milli: 200, ..small_config() };
    let out = annealing(&g, 4, cold, &mut rng).unwrap();
    assert!(out.trace.is_empty());
    assert_eq!(out.tour, vec![1, 2, 3, 4]);
    assert_eq!(out.cost, 15);
    assert_eq!(out.cost, g.distance_vec(&out.tour));
}

#[test]
fn annealing_returns_a_tour_and_its_cost() {
    let g = complete_five();
    let mut rng = Rng::from_seed(99);
    let out = annealing(&g, 5, small_config(), &mut rng).unwrap();
    // the tour is a permutation of 1..=5
    let mut seen = vec![false; 6];
    assert_eq!(out.tour.len(), 5);
    for &v in &out.tour {
        assert!((1..=5).contains(&v));
        assert!(!seen[v], "vertex {v} repeated");
        seen[v] = true;
    }
    // the reported cost belongs to the reported tour
    if out.trace.is_empty() {
        assert_eq!(out.tour, vec![1, 2, 3, 4, 5]);
        assert_eq!(out.cost, g.distance_vec(&out.tour));
    } else {
        assert_eq!(out.cost, g.distance_cycle(&out.tour));
        assert_eq!(out.trace.last().unwrap().cost, out.cost);
    }
}

#[test]
fn annealing_is_reproducible_under_one_seed() {
    let g = complete_five();
    let mut r1 = Rng::from_seed(5);
    let mut r2 = Rng::from_seed(5);
    let a = annealing(&g, 5, small_config(), &mut r1).unwrap();
    let b = annealing(&g, 5, small_config(), &mut r2).unwrap();
    assert_eq!(a.cost, b.cost);
    assert_eq!(a.tour, b.tour);
    assert_eq!(a.trace.len(), b.trace.len());
    for p in &a.trace {
        // every accepted state prices a full cycle of five edges
        assert!(p.cost >= 5);
    }
}
