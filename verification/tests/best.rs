use rrr::best::{get_best_time, get_virtual_best, BestExperimentResult};
use rrr::number::Double;
use rrr::outcome::{LevelInformation, SolveInformation, SolveReport};
use rrr::query::{check_mode, choose_answer, solution_count, Answer, Mode, SolutionCount};
use rrr::store::{ConfigMultiple, ConfigSettings, Entry, ExperimentMultiple, ExperimentStore};

fn num(x: f64) -> Double {
    Double::from_bits(x.to_bits()).expect("not a number")
}

fn levels() -> LevelInformation {
    LevelInformation {
        solver_time: None,
        nodes: None,
        cumulative_nb_solutions: None,
        nb_vars: None,
        nb_clauses: None,
        nb_learnt_clauses: None,
    }
}

fn report(nb_solutions: u64, sr: f64, solver: f64) -> SolveReport {
    SolveReport {
        total_solver_time: num(solver),
        total_sr_time: num(sr),
        total_nodes: None,
        nb_solutions,
        seed: None,
        memory_limit: 4096,
        time_limit: 3600,
        machine_info: "node-7".to_string(),
        level_info: levels(),
        freq_nb_solutions: None,
    }
}

fn success(nb_solutions: u64, sr: f64, solver: f64) -> SolveInformation {
    SolveInformation::Success(report(nb_solutions, sr, solver))
}

fn doubted(nb_solutions: u64, sr: f64, solver: f64) -> SolveInformation {
    SolveInformation::Doubted(report(nb_solutions, sr, solver))
}

fn timeout(limit: u64) -> SolveInformation {
    SolveInformation::Timeout {
        seed: None,
        memory_limit: 4096,
        time_limit: limit,
        machine_info: "node-1".to_string(),
    }
}

fn memout() -> SolveInformation {
    SolveInformation::Memout {
        seed: None,
        memory_limit: 4096,
        time_limit: 100,
        machine_info: "node-1".to_string(),
        crash_time: num(3.0),
    }
}

fn crash() -> SolveInformation {
    SolveInformation::Crash {
        seed: None,
        memory_limit: 4096,
        time_limit: None,
        machine_info: "node-1".to_string(),
        crash_time: num(0.5),
    }
}

fn bare(outcomes: Vec<SolveInformation>) -> ConfigMultiple {
    ConfigMultiple {
        settings: ConfigSettings {
            preprocess: String::new(),
            representation: String::new(),
            solver: String::new(),
            incomparability: false,
            interactive: false,
            native: false,
            compressed: false,
            ordered: false,
            no_solution_blocking: false,
            mdd: false,
            cgroups: false,
        },
        solve_information: outcomes,
    }
}

fn config(id: &str, outcomes: Vec<SolveInformation>) -> Entry<ConfigMultiple> {
    Entry { id: id.to_string(), value: bare(outcomes) }
}

fn store_of(experiments: Vec<(&str, Vec<Entry<ConfigMultiple>>)>) -> ExperimentStore {
    ExperimentStore {
        experiments: experiments
            .into_iter()
            .map(|(id, configs)| Entry {
                id: id.to_string(),
                value: ExperimentMultiple::new("m".to_string(), "i".to_string(), num(1.0), configs),
            })
            .collect(),
    }
}

fn best(sr: f64, solver: f64, nb_solutions: u64) -> BestExperimentResult {
    BestExperimentResult::Success {
        min_total_sr_time: num(sr),
        min_total_solver_time: num(solver),
        nb_solutions,
    }
}

#[test]
fn best_time_is_the_smallest_success_time() {
    let c = bare(vec![success(4, 3.1, 3.0), success(4, 2.5, 2.0), success(4, 4.0, 1.0)]);
    assert_eq!(get_best_time(&c), best(2.5, 1.0, 4));
    let c = config("c", vec![success(4, 3.1, 3.0), success(4, 2.5, 2.0), success(4, 4.0, 1.0)]);
    let store = store_of(vec![("e", vec![c])]);
    assert_eq!(check_mode(&store, "e", "c", Mode::SRTime, true), Answer::MinSr(num(2.5)));
}

#[test]
fn best_time_of_timeouts_is_the_longest_limit() {
    let c = bare(vec![timeout(10), timeout(30), timeout(20)]);
    assert_eq!(get_best_time(&c), BestExperimentResult::Timeout { max_time_limit: 30 });
    let store = store_of(vec![("e", vec![config("c", vec![timeout(10), timeout(30), timeout(20)])])]);
    for mode in [Mode::SRTime, Mode::SolverTime, Mode::NbSolutions] {
        assert_eq!(check_mode(&store, "e", "c", mode, true), Answer::MaxTimeout(30));
    }
}

#[test]
fn best_time_takes_each_minimum_on_its_own() {
    let c = bare(vec![success(8, 1.0, 9.0), success(8, 5.0, 2.0)]);
    assert_eq!(get_best_time(&c), best(1.0, 2.0, 8));
}

#[test]
fn best_time_prefers_a_success_to_any_timeout() {
    let c = bare(vec![timeout(1000), success(3, 50.0, 40.0), timeout(2000), memout(), crash()]);
    assert_eq!(get_best_time(&c), best(50.0, 40.0, 3));
}

#[test]
fn best_time_ignores_doubted_runs() {
    let c = bare(vec![doubted(3, 0.1, 0.1), success(4, 5.0, 4.0)]);
    assert_eq!(get_best_time(&c), best(5.0, 4.0, 4));
    let c = bare(vec![doubted(3, 0.1, 0.1), timeout(7)]);
    assert_eq!(get_best_time(&c), BestExperimentResult::Timeout { max_time_limit: 7 });
}

#[test]
fn best_time_without_success_or_timeout_is_empty() {
    assert_eq!(get_best_time(&bare(vec![])), BestExperimentResult::Empty);
    assert_eq!(get_best_time(&bare(vec![memout(), crash(), doubted(1, 1.0, 1.0)])), BestExperimentResult::Empty);
}

#[test]
fn best_time_reports_the_solutions_of_the_first_success() {
    let c = bare(vec![timeout(5), success(0, 3.0, 3.0), success(6, 1.0, 1.0)]);
    assert_eq!(get_best_time(&c), best(1.0, 1.0, 0));
    let c = bare(vec![success(6, 3.0, 3.0), success(2, 1.0, 1.0)]);
    assert_eq!(get_best_time(&c), best(1.0, 1.0, 6));
}

#[test]
fn best_time_of_equal_times_is_the_first() {
    let c = bare(vec![success(1, 0.0, -0.0), success(1, -0.0, 0.0)]);
    match get_best_time(&c) {
        BestExperimentResult::Success { min_total_sr_time, min_total_solver_time, .. } => {
            assert_eq!(min_total_sr_time.to_bits(), 0.0f64.to_bits());
            assert_eq!(min_total_solver_time.to_bits(), (-0.0f64).to_bits());
        }
        other => panic!("not a success: {:?}", other),
    }
}

#[test]
fn virtual_best_counts_successes_only() {
    let configs = vec![config("A", vec![timeout(100), timeout(200)]), config("B", vec![success(2, 1.2, 0.9)])];
    assert_eq!(get_virtual_best(&configs), best(1.2, 0.9, 2));
    let store = store_of(vec![("e", configs)]);
    assert_eq!(check_mode(&store, "e", "", Mode::SRTime, false), Answer::MinSr(num(1.2)));
    assert_eq!(check_mode(&store, "e", "", Mode::SolverTime, false), Answer::MinSolver(num(0.9)));
    assert_eq!(check_mode(&store, "e", "", Mode::NbSolutions, false), Answer::NbSols(2));
}

#[test]
fn virtual_best_without_a_success_is_empty() {
    let configs = vec![config("A", vec![timeout(100)]), config("B", vec![memout(), timeout(5)])];
    assert_eq!(get_virtual_best(&configs), BestExperimentResult::Empty);
    assert_eq!(get_virtual_best(&vec![]), BestExperimentResult::Empty);
    let store = store_of(vec![("e", configs)]);
    for mode in [Mode::SRTime, Mode::SolverTime, Mode::NbSolutions] {
        assert_eq!(check_mode(&store, "e", "", mode, false), Answer::Empty);
    }
}

#[test]
fn virtual_best_is_the_best_of_the_fastest_configuration() {
    let configs = vec![
        config("A", vec![success(3, 5.0, 0.5), success(3, 4.0, 3.0)]),
        config("B", vec![success(4, 2.0, 1.5), success(4, 3.0, 1.0)]),
        config("C", vec![success(5, 2.0, 0.1)]),
        config("D", vec![timeout(1)]),
    ];
    // B has the smallest outer time; its own smallest solver time and its
    // own number of solutions are reported, and C, as fast, comes later
    assert_eq!(get_virtual_best(&configs), best(2.0, 1.0, 4));
}

#[test]
fn check_mode_picks_by_mode() {
    let store = store_of(vec![
        ("e", vec![config("c", vec![success(9, 3.0, 2.0), success(9, 2.0, 2.5)]), config("d", vec![timeout(8)])]),
        ("f", vec![]),
    ]);
    assert_eq!(check_mode(&store, "e", "c", Mode::SRTime, true), Answer::MinSr(num(2.0)));
    assert_eq!(check_mode(&store, "e", "c", Mode::SolverTime, true), Answer::MinSolver(num(2.0)));
    assert_eq!(check_mode(&store, "e", "c", Mode::NbSolutions, true), Answer::NbSols(9));
    assert_eq!(check_mode(&store, "e", "d", Mode::SRTime, true), Answer::MaxTimeout(8));
    assert_eq!(check_mode(&store, "e", "c", Mode::SRTime, false), Answer::MinSr(num(2.0)));
}

#[test]
fn check_mode_on_what_is_unknown_is_empty() {
    let store = store_of(vec![("e", vec![config("c", vec![success(9, 3.0, 2.0)])]), ("f", vec![])]);
    assert_eq!(check_mode(&store, "x", "c", Mode::SRTime, true), Answer::Empty);
    assert_eq!(check_mode(&store, "x", "c", Mode::SRTime, false), Answer::Empty);
    assert_eq!(check_mode(&store, "e", "x", Mode::SRTime, true), Answer::Empty);
    assert_eq!(check_mode(&store, "f", "c", Mode::NbSolutions, true), Answer::Empty);
    assert_eq!(check_mode(&store, "f", "", Mode::NbSolutions, false), Answer::Empty);
    assert_eq!(check_mode(&ExperimentStore::new(), "e", "c", Mode::SRTime, true), Answer::Empty);
}

#[test]
fn answers_have_their_labels() {
    assert_eq!(Answer::MinSr(num(1.0)).label(), "MIN_SR");
    assert_eq!(Answer::MinSolver(num(1.0)).label(), "MIN_SOLVER");
    assert_eq!(Answer::NbSols(1).label(), "NB_SOLS");
    assert_eq!(Answer::MaxTimeout(1).label(), "MAX_TIMEOUT");
    assert_eq!(Answer::Empty.label(), "EMPTY");
    assert_eq!(choose_answer(BestExperimentResult::Timeout { max_time_limit: 3 }, Mode::SRTime, false), Answer::Empty);
    assert_eq!(choose_answer(BestExperimentResult::Timeout { max_time_limit: 3 }, Mode::SRTime, true), Answer::MaxTimeout(3));
    assert_eq!(choose_answer(BestExperimentResult::Empty, Mode::SRTime, true), Answer::Empty);
}

#[test]
fn solution_count_of_the_store_counts_the_successes() {
    let store = store_of(vec![
        (
            "agreed",
            vec![
                config("c", vec![success(9, 3.0, 2.0), timeout(1), success(9, 2.0, 2.5)]),
                config("d", vec![doubted(8, 1.0, 1.0), success(9, 1.0, 1.0), memout()]),
            ],
        ),
        ("split", vec![config("c", vec![success(9, 3.0, 2.0)]), config("d", vec![success(8, 1.0, 1.0)])]),
        ("none", vec![config("c", vec![timeout(4), doubted(3, 1.0, 1.0)])]),
        ("bare", vec![]),
    ]);
    assert_eq!(solution_count(&store, "agreed"), SolutionCount::Agreed { nb_solutions: 9, support: 3 });
    assert_eq!(solution_count(&store, "split"), SolutionCount::Conflict);
    assert_eq!(solution_count(&store, "none"), SolutionCount::Empty);
    assert_eq!(solution_count(&store, "bare"), SolutionCount::Empty);
    assert_eq!(solution_count(&store, "unknown"), SolutionCount::Empty);
}
