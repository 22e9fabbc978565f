use krpsim::domain::{check_sim_spec, Optimize, SimSpec};
use krpsim::parser::{parse_optimize, parse_processes, parse_spec, parse_stock};

#[test]
fn stock_lines_parse_name_and_quantity() {
    let st = parse_stock("iron:10").unwrap();
    assert_eq!(st.name, "iron");
    assert_eq!(st.quantity, 10);
    let neg = parse_stock("debt:-5").unwrap();
    assert_eq!(neg.quantity, -5);
    assert!(parse_stock("iron").is_err());
    assert!(parse_stock("iron:1:2").is_err());
    assert!(parse_stock("iron:abc").is_err());
    assert!(parse_stock("bad name:1").is_err());
    assert!(parse_stock("iron:99999999999999999999").is_err());
}

#[test]
fn process_lines_parse_needs_results_and_delay() {
    let p = parse_processes("forge:(iron:2;coal:1):(sword:1):5").unwrap();
    assert_eq!(p.name, "forge");
    assert_eq!(p.needs.len(), 2);
    assert_eq!(p.needs[0].name, "iron");
    assert_eq!(p.needs[0].quantity, 2);
    assert_eq!(p.needs[1].name, "coal");
    assert_eq!(p.results.len(), 1);
    assert_eq!(p.results[0].name, "sword");
    assert_eq!(p.duration, 5);

    let needs_only = parse_processes("burn:(coal:1):3").unwrap();
    assert_eq!(needs_only.needs.len(), 1);
    assert!(needs_only.results.is_empty());

    let results_only = parse_processes("mine::(ore:4):7").unwrap();
    assert!(results_only.needs.is_empty());
    assert_eq!(results_only.results[0].name, "ore");
    assert_eq!(results_only.results[0].quantity, 4);

    assert!(parse_processes("noparens:5").is_err());
    assert!(parse_processes("forge:(a:1):(b:1)").is_err());
    assert!(parse_processes("forge:(a:1:(b:1):2").is_err());
}

#[test]
fn optimize_lines_parse_both_goal_kinds() {
    match parse_optimize("optimize:(sword)").unwrap() {
        Optimize::Quantity(name) => assert_eq!(name, "sword"),
        Optimize::Time(_) => panic!("expected a quantity goal"),
    }
    match parse_optimize("optimize:(time;sword)").unwrap() {
        Optimize::Time(name) => assert_eq!(name, "sword"),
        Optimize::Quantity(_) => panic!("expected a time goal"),
    }
    assert!(parse_optimize("optimize:sword").is_err());
    assert!(parse_optimize("optimize:(a;b;c)").is_err());
    assert!(parse_optimize("optimize:(speed;sword)").is_err());
}

#[test]
fn whole_files_parse_line_by_line() {
    let text = "# a small forge\n\
                iron:10\n\
                coal:4\n\
                forge:(iron:2;coal:1):(sword:1):5\n\
                optimize:(sword)\n";
    let sp = parse_spec(text).unwrap();
    assert_eq!(sp.init_stocks.len(), 2);
    assert_eq!(sp.init_stocks[0].name, "iron");
    assert_eq!(sp.init_stocks[1].quantity, 4);
    assert_eq!(sp.processes.len(), 1);
    assert_eq!(sp.processes[0].id, 0);
    assert_eq!(sp.processes[0].name, "forge");
    match &sp.optimize {
        Optimize::Quantity(name) => assert_eq!(name, "sword"),
        Optimize::Time(_) => panic!("expected a quantity goal"),
    }
}

#[test]
fn files_without_or_with_two_goals_are_rejected() {
    assert!(parse_spec("iron:10\n").is_err());
    assert!(parse_spec("optimize:(a)\noptimize:(b)\n").is_err());
    assert!(parse_spec("iron:ten\noptimize:(iron)\n").is_err());
}

#[test]
fn carriage_returns_are_stripped() {
    let sp = parse_spec("iron:3\r\noptimize:(iron)\r\n").unwrap();
    assert_eq!(sp.init_stocks[0].name, "iron");
    assert_eq!(sp.init_stocks[0].quantity, 3);
}

#[test]
fn from_spec_assigns_ids_in_order_of_first_appearance() {
    let text = "iron:10\n\
                forge:(iron:2):(sword:1):5\n\
                trade:(sword:1):(gold:3):2\n\
                optimize:(gold)\n";
    let sp = parse_spec(text).unwrap();
    let sim = SimSpec::from_spec(&sp);
    // iron declared first, sword and gold appear only in processes.
    assert_eq!(sim.stock_names, vec!["iron", "sword", "gold"]);
    assert_eq!(sim.init_stocks, vec![10, 0, 0]);
    assert_eq!(sim.needs, vec![vec![(0, 2)], vec![(1, 1)]]);
    assert_eq!(sim.results, vec![vec![(1, 1)], vec![(2, 3)]]);
    assert_eq!(sim.durations, vec![5, 2]);
    assert_eq!(sim.target_stock_id, 2);
    assert!(check_sim_spec(&sim));
}

#[test]
fn from_spec_first_declaration_fixes_the_quantity() {
    let text = "iron:10\niron:99\noptimize:(iron)\n";
    let sp = parse_spec(text).unwrap();
    let sim = SimSpec::from_spec(&sp);
    assert_eq!(sim.stock_names, vec!["iron"]);
    assert_eq!(sim.init_stocks, vec![10]);
    assert_eq!(sim.target_stock_id, 0);
}

#[test]
fn parsed_files_simulate_end_to_end() {
    let text = "iron:10\n\
                coal:5\n\
                forge:(iron:2;coal:1):(sword:1):3\n\
                optimize:(sword)\n";
    let sp = parse_spec(text).unwrap();
    let sim = SimSpec::from_spec(&sp);
    assert!(check_sim_spec(&sim));
    let mut g = krpsim::genome::Genome::new(vec![krpsim::genome::Key::Active(0)], 0, 1, false);
    let (fit, state) = krpsim::sim::eval_fitness(&sim, &mut g, 100);
    // Five forgings exhaust the coal: 10 iron and 5 coal make 5 swords.
    assert_eq!(fit, 5);
    assert_eq!(state.stocks, vec![0, 0, 5]);
}

#[test]
fn zero_duration_specifications_are_flagged_invalid() {
    let text = "a:1\nswap:(a:1):(b:1):0\noptimize:(b)\n";
    let sp = parse_spec(text).unwrap();
    let sim = SimSpec::from_spec(&sp);
    assert!(!check_sim_spec(&sim));
}
