use rrr::doubts::{fix_doubts, rule, tally_votes, DoubtEvent, Ruling};
use rrr::number::Double;
use rrr::outcome::{LevelInformation, SolveInformation, SolveReport};
use rrr::store::{ConfigMultiple, ConfigSettings, Entry, ExperimentMultiple, ExperimentStore};

fn num(x: f64) -> Double {
    Double::from_bits(x.to_bits()).expect("not a number")
}

fn levels() -> LevelInformation {
    LevelInformation {
        solver_time: Some(vec![("1".to_string(), num(0.5)), ("2".to_string(), num(0.7))]),
        nodes: Some(vec![("1".to_string(), 10)]),
        cumulative_nb_solutions: None,
        nb_vars: None,
        nb_clauses: None,
        nb_learnt_clauses: None,
    }
}

fn report(nb_solutions: u64, sr: f64) -> SolveReport {
    SolveReport {
        total_solver_time: num(sr / 2.0),
        total_sr_time: num(sr),
        total_nodes: Some(12),
        nb_solutions,
        seed: Some(num(42.0)),
        memory_limit: 4096,
        time_limit: 3600,
        machine_info: "node-7".to_string(),
        level_info: levels(),
        freq_nb_solutions: Some(3),
    }
}

fn success(nb_solutions: u64, sr: f64) -> SolveInformation {
    SolveInformation::Success(report(nb_solutions, sr))
}

fn doubted(nb_solutions: u64, sr: f64) -> SolveInformation {
    SolveInformation::Doubted(report(nb_solutions, sr))
}

fn crash_of(nb_solutions: u64, sr: f64) -> SolveInformation {
    let r = report(nb_solutions, sr);
    SolveInformation::Crash {
        seed: r.seed,
        memory_limit: r.memory_limit,
        time_limit: Some(r.time_limit),
        machine_info: r.machine_info,
        crash_time: r.total_sr_time,
    }
}

fn timeout(limit: u64) -> SolveInformation {
    SolveInformation::Timeout {
        seed: None,
        memory_limit: 4096,
        time_limit: limit,
        machine_info: "node-1".to_string(),
    }
}

fn memout() -> SolveInformation {
    SolveInformation::Memout {
        seed: None,
        memory_limit: 4096,
        time_limit: 100,
        machine_info: "node-1".to_string(),
        crash_time: num(3.0),
    }
}

fn settings() -> ConfigSettings {
    ConfigSettings {
        preprocess: "None".to_string(),
        representation: "sat".to_string(),
        solver: "glucose".to_string(),
        incomparability: false,
        interactive: false,
        native: true,
        compressed: false,
        ordered: false,
        no_solution_blocking: false,
        mdd: false,
        cgroups: true,
    }
}

fn config(id: &str, outcomes: Vec<SolveInformation>) -> Entry<ConfigMultiple> {
    Entry {
        id: id.to_string(),
        value: ConfigMultiple { settings: settings(), solve_information: outcomes },
    }
}

fn experiment(id: &str, configs: Vec<Entry<ConfigMultiple>>) -> Entry<ExperimentMultiple> {
    Entry {
        id: id.to_string(),
        value: ExperimentMultiple::new("m".to_string(), "i".to_string(), num(0.5), configs),
    }
}

fn sorted(mut counts: Vec<(u64, u128)>) -> Vec<(u64, u128)> {
    counts.sort();
    counts
}

#[test]
fn majority_demotes_the_minority_success() {
    let mut store = ExperimentStore {
        experiments: vec![experiment(
            "e",
            vec![config("c1", vec![success(5, 1.0), success(5, 2.0)]), config("c2", vec![success(7, 3.0)])],
        )],
    };
    let events = fix_doubts(&mut store);
    let configs = &store.experiments[0].value.configs;
    assert_eq!(configs[0].value.solve_information, vec![success(5, 1.0), success(5, 2.0)]);
    assert_eq!(configs[1].value.solve_information, vec![crash_of(7, 3.0)]);
    assert_eq!(
        events,
        vec![DoubtEvent::Demoted { experiment: 0, config: 1, run: 0, nb_solutions: 7 }]
    );
}

#[test]
fn majority_promotes_a_doubted_run_of_the_winner() {
    let mut store = ExperimentStore {
        experiments: vec![experiment(
            "e",
            vec![config("c", vec![success(7, 1.0), doubted(5, 2.0), doubted(5, 3.0)])],
        )],
    };
    let events = fix_doubts(&mut store);
    let outcomes = &store.experiments[0].value.configs[0].value.solve_information;
    assert_eq!(outcomes, &vec![crash_of(7, 1.0), success(5, 2.0), success(5, 3.0)]);
    assert_eq!(
        events,
        vec![
            DoubtEvent::Demoted { experiment: 0, config: 0, run: 0, nb_solutions: 7 },
            DoubtEvent::Promoted { experiment: 0, config: 0, run: 1, nb_solutions: 5 },
            DoubtEvent::Promoted { experiment: 0, config: 0, run: 2, nb_solutions: 5 },
        ]
    );
}

#[test]
fn a_doubted_run_that_lost_stays_doubted() {
    let mut store = ExperimentStore {
        experiments: vec![experiment(
            "e",
            vec![config("c", vec![success(5, 1.0), success(5, 2.0), doubted(7, 3.0), timeout(9), memout()])],
        )],
    };
    let events = fix_doubts(&mut store);
    let outcomes = &store.experiments[0].value.configs[0].value.solve_information;
    assert_eq!(
        outcomes,
        &vec![success(5, 1.0), success(5, 2.0), doubted(7, 3.0), timeout(9), memout()]
    );
    assert_eq!(events, vec![]);
}

#[test]
fn demotion_carries_the_fields_over() {
    let mut store = ExperimentStore {
        experiments: vec![experiment("e", vec![config("c", vec![success(5, 1.0), success(5, 2.0), success(7, 8.5)])])],
    };
    fix_doubts(&mut store);
    match &store.experiments[0].value.configs[0].value.solve_information[2] {
        SolveInformation::Crash { seed, memory_limit, time_limit, machine_info, crash_time } => {
            assert_eq!(*seed, Some(num(42.0)));
            assert_eq!(*memory_limit, 4096);
            assert_eq!(*time_limit, Some(3600));
            assert_eq!(machine_info, "node-7");
            assert_eq!(*crash_time, num(8.5));
        }
        other => panic!("not a crash: {:?}", other),
    }
}

#[test]
fn a_tie_leaves_the_store_as_it_was() {
    let before = ExperimentStore {
        experiments: vec![experiment(
            "e",
            vec![
                config("c1", vec![success(5, 1.0), doubted(7, 2.0)]),
                config("c2", vec![success(7, 3.0), doubted(5, 4.0), timeout(1)]),
            ],
        )],
    };
    let mut store = before.clone();
    let events = fix_doubts(&mut store);
    assert_eq!(store, before);
    assert_eq!(events, vec![DoubtEvent::Tied { experiment: 0 }]);
}

#[test]
fn a_tie_for_the_most_votes_among_three_numbers_settles_nothing() {
    let before = ExperimentStore {
        experiments: vec![experiment(
            "e",
            vec![config("c", vec![success(5, 1.0), success(5, 1.0), success(7, 1.0), success(7, 1.0), success(9, 1.0)])],
        )],
    };
    let mut store = before.clone();
    let events = fix_doubts(&mut store);
    assert_eq!(store, before);
    assert_eq!(events, vec![DoubtEvent::Tied { experiment: 0 }]);
}

#[test]
fn fewer_than_two_numbers_is_no_doubt() {
    let before = ExperimentStore {
        experiments: vec![
            experiment("alone", vec![config("c", vec![doubted(5, 1.0), timeout(3)])]),
            experiment("agreed", vec![config("c", vec![success(5, 1.0)]), config("d", vec![success(5, 2.0)])]),
            experiment("none", vec![config("c", vec![timeout(3), memout()])]),
            experiment("empty", vec![]),
        ],
    };
    let mut store = before.clone();
    let events = fix_doubts(&mut store);
    assert_eq!(store, before);
    assert_eq!(events, vec![]);
    for e in &before.experiments {
        assert_eq!(rule(&e.value.configs), Ruling::Unquestioned);
    }
}

#[test]
fn each_experiment_is_ruled_on_its_own_votes() {
    let mut store = ExperimentStore {
        experiments: vec![
            experiment("a", vec![config("c", vec![success(5, 1.0), success(7, 1.0)])]),
            experiment("b", vec![config("c", vec![success(7, 1.0), success(7, 2.0)]), config("d", vec![success(5, 3.0), timeout(4)])]),
            experiment("c", vec![config("c", vec![success(5, 1.0)])]),
        ],
    };
    let events = fix_doubts(&mut store);
    assert_eq!(store.experiments[0].value.configs[0].value.solve_information, vec![success(5, 1.0), success(7, 1.0)]);
    assert_eq!(store.experiments[1].value.configs[0].value.solve_information, vec![success(7, 1.0), success(7, 2.0)]);
    assert_eq!(store.experiments[1].value.configs[1].value.solve_information, vec![crash_of(5, 3.0), timeout(4)]);
    assert_eq!(store.experiments[2].value.configs[0].value.solve_information, vec![success(5, 1.0)]);
    assert_eq!(
        events,
        vec![
            DoubtEvent::Tied { experiment: 0 },
            DoubtEvent::Demoted { experiment: 1, config: 1, run: 0, nb_solutions: 5 },
        ]
    );
    assert_eq!(store.experiments[1].id, "b");
    assert_eq!(store.experiments[1].value.configs[1].id, "d");
    assert_eq!(store.experiments[1].value.configs[1].value.settings, settings());
}

#[test]
fn the_ruling_does_not_depend_on_the_order() {
    let orders: Vec<Vec<Entry<ConfigMultiple>>> = vec![
        vec![config("c1", vec![success(5, 1.0), doubted(5, 2.0)]), config("c2", vec![success(7, 3.0)])],
        vec![config("c2", vec![success(7, 3.0)]), config("c1", vec![doubted(5, 2.0), success(5, 1.0)])],
        vec![config("c1", vec![success(7, 3.0), doubted(5, 2.0), success(5, 1.0)])],
        vec![config("a", vec![doubted(5, 2.0)]), config("b", vec![success(7, 3.0)]), config("c", vec![success(5, 1.0)])],
    ];
    for configs in &orders {
        assert_eq!(rule(configs), Ruling::Trusted(5));
        assert_eq!(sorted(tally_votes(configs)), vec![(5, 2), (7, 1)]);
    }
}

#[test]
fn tally_counts_successes_and_doubted_runs_only() {
    let configs = vec![
        config("c1", vec![success(5, 1.0), timeout(5), crash_of(5, 1.0), memout(), doubted(9, 1.0)]),
        config("c2", vec![]),
        config("c3", vec![success(9, 1.0), success(5, 1.0), doubted(5, 1.0), success(0, 1.0)]),
    ];
    assert_eq!(sorted(tally_votes(&configs)), vec![(0, 1), (5, 3), (9, 2)]);
    assert_eq!(rule(&configs), Ruling::Trusted(5));
    assert_eq!(tally_votes(&vec![]), vec![]);
}

#[test]
fn rule_tells_a_tie_from_a_winner() {
    assert_eq!(rule(&vec![config("c", vec![success(5, 1.0), success(5, 1.0), success(7, 1.0), success(7, 1.0)])]), Ruling::Tied);
    assert_eq!(rule(&vec![config("c", vec![success(5, 1.0), success(7, 1.0), success(7, 1.0)])]), Ruling::Trusted(7));
    assert_eq!(rule(&vec![config("c", vec![success(7, 1.0), success(7, 1.0)])]), Ruling::Unquestioned);
    assert_eq!(SolveInformation::Doubted(report(4, 1.0)).vote(), Some(4));
    assert_eq!(success(6, 1.0).vote(), Some(6));
    assert_eq!(timeout(6).vote(), None);
}

#[test]
fn tally_lists_the_numbers_in_the_order_of_their_first_votes() {
    let configs = vec![
        config("c1", vec![timeout(1), success(9, 1.0), doubted(5, 1.0), success(9, 1.0)]),
        config("c2", vec![success(5, 1.0), success(2, 1.0), doubted(9, 1.0)]),
    ];
    assert_eq!(tally_votes(&configs), vec![(9, 3), (5, 2), (2, 1)]);
    let configs = vec![
        config("c2", vec![success(5, 1.0), success(2, 1.0), doubted(9, 1.0)]),
        config("c1", vec![timeout(1), success(9, 1.0), doubted(5, 1.0), success(9, 1.0)]),
    ];
    assert_eq!(tally_votes(&configs), vec![(5, 2), (2, 1), (9, 3)]);
}

#[test]
fn a_second_reconciliation_changes_nothing() {
    let mut store = ExperimentStore {
        experiments: vec![
            experiment(
                "a",
                vec![
                    config(
                        "c",
                        vec![success(5, 1.0), success(7, 1.0), doubted(5, 2.0), doubted(9, 3.0), success(5, 4.0)],
                    ),
                    config("d", vec![success(9, 1.0), doubted(7, 1.0), timeout(3)]),
                ],
            ),
            experiment("b", vec![config("c", vec![success(1, 1.0), success(2, 1.0)])]),
        ],
    };
    let first = fix_doubts(&mut store);
    assert_eq!(first.len(), 4);
    let settled = store.clone();
    let second = fix_doubts(&mut store);
    assert_eq!(store, settled);
    assert_eq!(second, vec![DoubtEvent::Tied { experiment: 1 }]);
    assert_eq!(rule(&store.experiments[0].value.configs), Ruling::Trusted(5));
}
