use krpsim::domain::{Optimize, SimSpec};
use krpsim::ga::{
    gen_initial_pop, gen_random_genome, run_ga, sort_by_fitness_desc, ISLANDS_COUNT,
    MAX_POPULATION_PER_ISLAND,
};
use krpsim::genome::{genome_eq, quantize, Genome, Key, KEY_SCALE};
use krpsim::sim::{eval_fitness, priority_from_keys};
use rand::rngs::SmallRng;
use rand::SeedableRng;

#[test]
fn quantize_rounds_to_the_nearest_bucket() {
    assert_eq!(quantize(0), 0);
    assert_eq!(quantize(499), 0);
    assert_eq!(quantize(500), 1);
    assert_eq!(quantize(1_000), 1);
    assert_eq!(quantize(1_499), 1);
    assert_eq!(quantize(1_500), 2);
    assert_eq!(quantize(999_999_999), 1_000_000);
}

#[test]
fn genomes_equal_within_tolerance_distinct_beyond() {
    let a = Genome::new(vec![Key::Active(1_000), Key::Disabled], 7, 4, true);
    let b = Genome::new(vec![Key::Active(1_400), Key::Disabled], 0, 4, true);
    // Same buckets: duplicates, even though the fitness differs.
    assert!(genome_eq(&a, &b));
    let c = Genome::new(vec![Key::Active(2_100), Key::Disabled], 0, 4, true);
    assert!(!genome_eq(&a, &c));
    // A differing divider always separates.
    let d = Genome::new(vec![Key::Active(1_000), Key::Disabled], 7, 5, true);
    assert!(!genome_eq(&a, &d));
    // An active key never matches the disabled marker.
    let e = Genome::new(vec![Key::Active(1_000), Key::Active(0)], 7, 4, true);
    assert!(!genome_eq(&a, &e));
}

#[test]
fn priority_sorts_by_key_then_id_with_disabled_last() {
    let keys = vec![
        Key::Active(500),
        Key::Disabled,
        Key::Active(100),
        Key::Active(500),
    ];
    let order = priority_from_keys(&keys);
    assert_eq!(order, vec![2, 0, 3, 1]);
}

#[test]
fn random_genomes_are_well_formed() {
    let mut rng = SmallRng::seed_from_u64(7);
    for n in [1usize, 3, 10] {
        let g = gen_random_genome(&mut rng, n);
        assert_eq!(g.keys.len(), n);
        assert!(g.pending_stock_divider >= 1);
        assert_eq!(g.fitness, 0);
        for k in &g.keys {
            match k {
                Key::Active(v) => assert!(*v < KEY_SCALE),
                Key::Disabled => assert!(g.disabled_processes),
            }
        }
    }
}

#[test]
fn initial_population_fills_every_island() {
    let mut rng = SmallRng::seed_from_u64(11);
    let pop = gen_initial_pop(&mut rng, 4);
    assert_eq!(pop.candidates.len(), ISLANDS_COUNT);
    for island in &pop.candidates {
        assert_eq!(island.len(), MAX_POPULATION_PER_ISLAND);
        for g in island {
            assert_eq!(g.keys.len(), 4);
            assert!(g.pending_stock_divider >= 1);
        }
    }
}

#[test]
fn sorting_orders_by_fitness_descending() {
    let mut island = vec![
        Genome::new(vec![Key::Active(1)], 3, 1, false),
        Genome::new(vec![Key::Active(2)], 9, 1, false),
        Genome::new(vec![Key::Active(3)], 1, 1, false),
        Genome::new(vec![Key::Active(4)], 9, 1, false),
    ];
    sort_by_fitness_desc(&mut island);
    let fits: Vec<i64> = island.iter().map(|g| g.fitness).collect();
    assert_eq!(fits, vec![9, 9, 3, 1]);
}

#[test]
fn search_finds_the_exhaustible_optimum() {
    // Stocks: 0 = fuel (five units, never replenished), 1 = flare
    // (target).  Any enabled policy burns all five; the search must
    // at least match the best initial genome.
    let spec = SimSpec {
        needs: vec![vec![(0, 1)]],
        results: vec![vec![(1, 1)]],
        durations: vec![1],
        init_stocks: vec![5, 0],
        stock_names: vec![String::from("fuel"), String::from("flare")],
        optimize: Optimize::Quantity(String::from("flare")),
        target_stock_id: 1,
    };
    let mut rng = SmallRng::seed_from_u64(42);
    let pop = gen_initial_pop(&mut rng, 1);
    let best = run_ga(&spec, pop, 2, &mut rng);
    assert_eq!(best.fitness, 5);
    // The reported fitness is the genome's own evaluated score.
    let mut copy = best.duplicate();
    let (fit, _) = eval_fitness(&spec, &mut copy, 10_000);
    assert_eq!(fit, best.fitness);
}
