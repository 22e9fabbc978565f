use krpsim::domain::{Optimize, SimSpec};
use krpsim::genome::{Genome, Key};
use krpsim::sim::{eval_fitness, eval_fitness_logged, StockSnapshot};

fn widget_spec() -> SimSpec {
    // One process with no needs produces one "widget" per cycle.
    SimSpec {
        needs: vec![vec![]],
        results: vec![vec![(0, 1)]],
        durations: vec![1],
        init_stocks: vec![0],
        stock_names: vec![String::from("widget")],
        optimize: Optimize::Quantity(String::from("widget")),
        target_stock_id: 0,
    }
}

#[test]
fn single_process_grows_one_per_cycle() {
    let spec = widget_spec();
    let mut g = Genome::new(vec![Key::Active(0)], 0, 1, false);
    let (fit, sim) = eval_fitness(&spec, &mut g, 5);
    assert_eq!(fit, 5);
    assert_eq!(sim.stocks, vec![5]);
    assert_eq!(sim.time, 5);
    assert_eq!(g.fitness, 5);
}

#[test]
fn longer_horizon_more_widgets() {
    let spec = widget_spec();
    let mut g = Genome::new(vec![Key::Active(0)], 0, 1, false);
    let (fit1, _) = eval_fitness(&spec, &mut g, 3);
    let (fit2, _) = eval_fitness(&spec, &mut g, 10);
    assert_eq!(fit1, 3);
    assert_eq!(fit2, 10);
    assert!(fit1 <= fit2);
}

#[test]
fn evaluation_is_deterministic() {
    // Stocks: 0 = ore, 1 = metal, 2 = tool (target).
    let spec = SimSpec {
        needs: vec![vec![(0, 2)], vec![(1, 1)]],
        results: vec![vec![(1, 1)], vec![(2, 1)]],
        durations: vec![2, 3],
        init_stocks: vec![10, 0, 0],
        stock_names: vec![
            String::from("ore"),
            String::from("metal"),
            String::from("tool"),
        ],
        optimize: Optimize::Quantity(String::from("tool")),
        target_stock_id: 2,
    };
    let mut g1 = Genome::new(vec![Key::Active(700), Key::Active(100)], 0, 2, false);
    let mut g2 = Genome::new(vec![Key::Active(700), Key::Active(100)], 0, 2, false);
    let (f1, s1) = eval_fitness(&spec, &mut g1, 50);
    let (f2, s2) = eval_fitness(&spec, &mut g2, 50);
    assert_eq!(f1, f2);
    assert_eq!(s1.stocks, s2.stocks);
    assert_eq!(s1.time, s2.time);
}

#[test]
fn disabled_process_never_starts() {
    let spec = widget_spec();
    let mut g = Genome::new(vec![Key::Disabled], 0, 1, true);
    let (fit, sim) = eval_fitness(&spec, &mut g, 100);
    assert_eq!(fit, 0);
    assert_eq!(sim.stocks, vec![0]);
    assert!(sim.running.is_empty());
    // The run stops at once: nothing can ever be in flight.
    assert_eq!(sim.time, 0);
}

#[test]
fn priority_order_decides_who_gets_the_shared_input() {
    // Stocks: 0 = coal (shared, only one unit), 1 = goods (target).
    // Process 0 turns one coal into two goods, process 1 into one.
    let spec = SimSpec {
        needs: vec![vec![(0, 1)], vec![(0, 1)]],
        results: vec![vec![(1, 2)], vec![(1, 1)]],
        durations: vec![1, 1],
        init_stocks: vec![1, 0],
        stock_names: vec![String::from("coal"), String::from("goods")],
        optimize: Optimize::Quantity(String::from("goods")),
        target_stock_id: 1,
    };
    let mut first_wins = Genome::new(vec![Key::Active(0), Key::Active(500_000)], 0, 1, false);
    let (fit_a, _) = eval_fitness(&spec, &mut first_wins, 10);
    assert_eq!(fit_a, 2);
    let mut second_wins = Genome::new(vec![Key::Active(500_000), Key::Active(0)], 0, 1, false);
    let (fit_b, _) = eval_fitness(&spec, &mut second_wins, 10);
    assert_eq!(fit_b, 1);
}

#[test]
fn both_competitors_start_with_disjoint_inputs() {
    // Stocks: 0 = alpha, 1 = beta, 2 = out (target).  Two processes
    // produce the target from disjoint inputs; the demand map shows
    // unbounded need for the top process's product, so both run.
    let spec = SimSpec {
        needs: vec![vec![(0, 1)], vec![(1, 1)]],
        results: vec![vec![(2, 1)], vec![(2, 1)]],
        durations: vec![1, 1],
        init_stocks: vec![10, 10, 0],
        stock_names: vec![
            String::from("alpha"),
            String::from("beta"),
            String::from("out"),
        ],
        optimize: Optimize::Quantity(String::from("out")),
        target_stock_id: 2,
    };
    let mut g = Genome::new(vec![Key::Active(100), Key::Active(200)], 0, 1, false);
    let (fit, sim) = eval_fitness(&spec, &mut g, 1);
    assert_eq!(fit, 2);
    assert_eq!(sim.stocks, vec![9, 9, 2]);
}

#[test]
fn ties_on_finish_time_apply_in_process_id_order() {
    // Two independent producers with the same duration finish at the
    // same instant; both deliveries land.
    let spec = SimSpec {
        needs: vec![vec![], vec![]],
        results: vec![vec![(0, 1)], vec![(0, 3)]],
        durations: vec![2, 2],
        init_stocks: vec![0],
        stock_names: vec![String::from("x")],
        optimize: Optimize::Quantity(String::from("x")),
        target_stock_id: 0,
    };
    let mut g = Genome::new(vec![Key::Active(1), Key::Active(2)], 0, 1, false);
    let (fit, sim) = eval_fitness(&spec, &mut g, 2);
    assert_eq!(fit, 4);
    assert_eq!(sim.time, 2);
}

#[test]
fn trajectory_records_one_snapshot_per_tick() {
    let spec = widget_spec();
    let mut g = Genome::new(vec![Key::Active(0)], 0, 1, false);
    let mut trace: Vec<StockSnapshot> = Vec::new();
    let (fit, sim) = eval_fitness_logged(&spec, &mut g, 3, &mut trace);
    assert_eq!(fit, 3);
    let times: Vec<i64> = trace.iter().map(|s| s.time).collect();
    assert_eq!(times, vec![0, 1, 2, 3]);
    let widgets: Vec<i64> = trace.iter().map(|s| s.stocks[0]).collect();
    assert_eq!(widgets, vec![0, 1, 2, 3]);
    assert_eq!(trace.last().unwrap().stocks, sim.stocks);
}

#[test]
fn quantity_goals_drive_the_top_inputs_without_bound() {
    // Stocks: 0 = part, 1 = target.  Process 0 (top priority) turns a
    // part into a target unit; process 1 makes five parts at a time.
    // Under a quantity goal the top process's input is demanded
    // without bound, so the supplier keeps running; under a time goal
    // the supplier only covers concrete shortfalls.
    let needs = vec![vec![(0, 1)], vec![]];
    let results = vec![vec![(1, 1)], vec![(0, 5)]];
    let durations = vec![1, 2];
    let quantity = SimSpec {
        needs: needs.clone(),
        results: results.clone(),
        durations: durations.clone(),
        init_stocks: vec![0, 0],
        stock_names: vec![String::from("part"), String::from("goal")],
        optimize: Optimize::Quantity(String::from("goal")),
        target_stock_id: 1,
    };
    let time = SimSpec {
        needs,
        results,
        durations,
        init_stocks: vec![0, 0],
        stock_names: vec![String::from("part"), String::from("goal")],
        optimize: Optimize::Time(String::from("goal")),
        target_stock_id: 1,
    };
    let mut g1 = Genome::new(vec![Key::Active(0), Key::Active(1)], 0, 1, false);
    let mut g2 = Genome::new(vec![Key::Active(0), Key::Active(1)], 0, 1, false);
    let (_, sim_q) = eval_fitness(&quantity, &mut g1, 5);
    let (_, sim_t) = eval_fitness(&time, &mut g2, 5);
    assert!(sim_q.stocks[0] > sim_t.stocks[0]);
}

#[test]
fn throttling_divider_limits_redundant_production() {
    // Stocks: 0 = free intermediate, 1 = target.  Process 0 produces
    // the intermediate from nothing; process 1 (top priority) turns
    // two intermediates into a target unit with a long duration.
    // While two units are already pending, a large divider lets the
    // producer keep running anyway, a divider of one throttles it.
    let spec = SimSpec {
        needs: vec![vec![], vec![(0, 2)]],
        results: vec![vec![(0, 1)], vec![(1, 1)]],
        durations: vec![1, 5],
        init_stocks: vec![0, 0],
        stock_names: vec![String::from("part"), String::from("kit")],
        optimize: Optimize::Quantity(String::from("kit")),
        target_stock_id: 1,
    };
    let mut throttled = Genome::new(vec![Key::Active(900), Key::Active(100)], 0, 1, false);
    let (fit_t, sim_t) = eval_fitness(&spec, &mut throttled, 6);
    let mut eager = Genome::new(vec![Key::Active(900), Key::Active(100)], 0, 500, false);
    let (fit_e, sim_e) = eval_fitness(&spec, &mut eager, 6);
    // Both reach the first kit no later than the horizon allows…
    assert_eq!(fit_t, 0);
    assert_eq!(fit_e, 0);
    // …but the eager divider keeps more parts flowing.
    assert!(sim_e.stocks[0] >= sim_t.stocks[0]);
}
