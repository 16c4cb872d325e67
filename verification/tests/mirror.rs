use rrr::mirror::{
    check_mode, check_nb_successful, check_sol, check_time, classify, commit_row,
    get_rsd_extra_exp_ids, plan_fetch, pooled_experiments, store_rows, DBRow, Fetch, MirrorAnswer,
    MirrorReport, RowKind,
};
use rrr::number::Double;
use rrr::outcome::{LevelInformation, SolveInformation, SolveReport};
use rrr::query::{Mode, SolutionCount};
use rrr::store::{
    ConfigMultiple, ConfigSettings, Entry, ExperimentMultiple, ExperimentSingle, ExperimentStore,
};

fn num(x: f64) -> Double {
    Double::from_bits(x.to_bits()).expect("not a number")
}

fn row(kind: &str, time: f64) -> DBRow {
    DBRow::new(
        "e".to_string(),
        "c".to_string(),
        kind.to_string(),
        num(time),
        None,
        "node".to_string(),
        1024,
        None,
    )
}

fn counted(kind: &str, nb: Option<u64>) -> DBRow {
    let mut r = row(kind, 1.0);
    r.nb_solutions = nb;
    r
}

fn seeded(kind: &str, seed: Option<f64>) -> DBRow {
    let mut r = row(kind, 1.0);
    r.seed = seed.map(num);
    r
}

fn levels() -> LevelInformation {
    LevelInformation {
        solver_time: None,
        nodes: None,
        cumulative_nb_solutions: None,
        nb_vars: None,
        nb_clauses: None,
        nb_learnt_clauses: None,
    }
}

fn report(nb_solutions: u64, sr: f64) -> SolveReport {
    SolveReport {
        total_solver_time: num(sr / 2.0),
        total_sr_time: num(sr),
        total_nodes: None,
        nb_solutions,
        seed: Some(num(7.0)),
        memory_limit: 2048,
        time_limit: 3600,
        machine_info: "node-7".to_string(),
        level_info: levels(),
        freq_nb_solutions: None,
    }
}

fn timeout(limit: u64) -> SolveInformation {
    SolveInformation::Timeout {
        seed: Some(num(3.0)),
        memory_limit: 512,
        time_limit: limit,
        machine_info: "node-2".to_string(),
    }
}

fn memout() -> SolveInformation {
    SolveInformation::Memout {
        seed: None,
        memory_limit: 256,
        time_limit: 100,
        machine_info: "node-3".to_string(),
        crash_time: num(12.5),
    }
}

fn crash() -> SolveInformation {
    SolveInformation::Crash {
        seed: Some(num(9.0)),
        memory_limit: 128,
        time_limit: None,
        machine_info: "node-4".to_string(),
        crash_time: num(0.25),
    }
}

fn bare(outcomes: Vec<SolveInformation>) -> ConfigMultiple {
    ConfigMultiple {
        settings: ConfigSettings {
            preprocess: String::new(),
            representation: String::new(),
            solver: String::new(),
            incomparability: false,
            interactive: false,
            native: false,
            compressed: false,
            ordered: false,
            no_solution_blocking: false,
            mdd: false,
            cgroups: false,
        },
        solve_information: outcomes,
    }
}

fn permutations(rows: &[DBRow]) -> Vec<Vec<DBRow>> {
    if rows.len() <= 1 {
        return vec![rows.to_vec()];
    }
    let mut all = vec![];
    for i in 0..rows.len() {
        let mut rest = rows.to_vec();
        let first = rest.remove(i);
        for mut tail in permutations(&rest) {
            tail.insert(0, first.clone());
            all.push(tail);
        }
    }
    all
}

#[test]
fn a_success_wins_in_any_order() {
    let rows = [row("TIMEOUT", 10.0), row("SUCCESS", 5.0), row("SUCCESS", 3.0), row("CRASHED", 1.0)];
    let orders = permutations(&rows);
    assert_eq!(orders.len(), 24);
    for order in orders {
        let answer = check_time(&order);
        assert_eq!(answer, MirrorAnswer::MinSr(num(3.0)));
        assert_eq!(answer.label(), "min SR time");
    }
}

#[test]
fn the_first_row_stands_whatever_its_kind() {
    assert_eq!(check_time(&vec![row("CRASHED", 1.0), row("TIMEOUT", 10.0)]), MirrorAnswer::Empty);
    assert_eq!(check_time(&vec![row("TIMEOUT", 10.0), row("CRASHED", 1.0)]), MirrorAnswer::MaxTimeout(num(10.0)));
    assert_eq!(check_time(&vec![row("DOUBTED", 1.0), row("MEMOUT", 10.0)]), MirrorAnswer::Empty);
    assert_eq!(check_time(&vec![row("MEMOUT", 10.0), row("TIMEOUT", 20.0)]), MirrorAnswer::MaxMemout(num(10.0)));
    assert_eq!(check_time(&vec![row("TIMEOUT", 10.0), row("MEMOUT", 20.0)]), MirrorAnswer::MaxTimeout(num(10.0)));
    assert_eq!(check_time(&vec![row("CRASHED", 1.0), row("SUCCESS", 10.0)]), MirrorAnswer::MinSr(num(10.0)));
}

#[test]
fn timeouts_and_memouts_keep_the_largest() {
    assert_eq!(
        check_time(&vec![row("TIMEOUT", 10.0), row("TIMEOUT", 30.0), row("TIMEOUT", 20.0)]),
        MirrorAnswer::MaxTimeout(num(30.0))
    );
    assert_eq!(
        check_time(&vec![row("MEMOUT", 10.0), row("MEMOUT", 30.5), row("MEMOUT", 20.0)]),
        MirrorAnswer::MaxMemout(num(30.5))
    );
    assert_eq!(
        check_time(&vec![row("SUCCESS", 10.0), row("SUCCESS", 30.0), row("SUCCESS", 20.0)]),
        MirrorAnswer::MinSr(num(10.0))
    );
}

#[test]
fn no_rows_is_empty() {
    assert_eq!(check_time(&vec![]), MirrorAnswer::Empty);
    assert_eq!(check_time(&vec![row("CRASHED", 1.0)]), MirrorAnswer::Empty);
    assert_eq!(check_sol(&vec![]), SolutionCount::Empty);
    assert_eq!(check_nb_successful(&vec![]), 0);
}

#[test]
fn mirror_answers_have_their_labels() {
    assert_eq!(MirrorAnswer::MinSr(num(1.0)).label(), "min SR time");
    assert_eq!(MirrorAnswer::MaxTimeout(num(1.0)).label(), "max timeout");
    assert_eq!(MirrorAnswer::MaxMemout(num(1.0)).label(), "max memout time");
    assert_eq!(MirrorAnswer::Empty.label(), "EMPTY");
}

#[test]
fn classify_knows_three_kinds() {
    assert_eq!(classify(&"SUCCESS".to_string()), RowKind::Success);
    assert_eq!(classify(&"TIMEOUT".to_string()), RowKind::Timeout);
    assert_eq!(classify(&"MEMOUT".to_string()), RowKind::Memout);
    assert_eq!(classify(&"CRASHED".to_string()), RowKind::Other);
    assert_eq!(classify(&"DOUBTED".to_string()), RowKind::Other);
    assert_eq!(classify(&"success".to_string()), RowKind::Other);
    assert_eq!(classify(&"".to_string()), RowKind::Other);
}

#[test]
fn check_sol_counts_the_support() {
    let rows = vec![
        counted("SUCCESS", Some(12)),
        counted("TIMEOUT", None),
        counted("SUCCESS", None),
        counted("SUCCESS", Some(12)),
        counted("DOUBTED", Some(13)),
        counted("SUCCESS", Some(12)),
    ];
    assert_eq!(check_sol(&rows), SolutionCount::Agreed { nb_solutions: 12, support: 3 });
    assert_eq!(check_sol(&vec![counted("SUCCESS", Some(0))]), SolutionCount::Agreed { nb_solutions: 0, support: 1 });
    assert_eq!(check_sol(&vec![counted("TIMEOUT", Some(4)), counted("SUCCESS", None)]), SolutionCount::Empty);
}

#[test]
fn check_sol_reports_a_conflict() {
    let rows = vec![counted("SUCCESS", Some(12)), counted("SUCCESS", Some(12)), counted("SUCCESS", Some(13))];
    assert_eq!(check_sol(&rows), SolutionCount::Conflict);
    let rows = vec![counted("SUCCESS", Some(12)), counted("SUCCESS", Some(13)), counted("SUCCESS", Some(12))];
    assert_eq!(check_sol(&rows), SolutionCount::Conflict);
}

#[test]
fn distinct_seeds_of_successes_are_counted() {
    let rows = vec![
        seeded("SUCCESS", Some(1.0)),
        seeded("SUCCESS", Some(2.0)),
        seeded("SUCCESS", None),
        seeded("SUCCESS", Some(1.0)),
        seeded("TIMEOUT", Some(5.0)),
        seeded("SUCCESS", Some(0.0)),
        seeded("SUCCESS", Some(-0.0)),
        seeded("SUCCESS", None),
        seeded("SUCCESS", Some(2.0)),
    ];
    assert_eq!(check_nb_successful(&rows), 3);
    assert_eq!(check_nb_successful(&vec![seeded("SUCCESS", None)]), 0);
    assert_eq!(check_nb_successful(&vec![seeded("CRASHED", Some(1.0))]), 0);
}

#[test]
fn family_of_a_rel_sub_experiment() {
    let want = vec![
        "rel_sub_x_12",
        "rel_sub_complete_x_12",
        "rel_sub_par_neg_x_12",
        "rel_sub_par_pos_x_12",
    ];
    for id in ["rel_sub_x_12", "rel_sub_complete_x_12", "rel_sub_par_neg_x_12", "rel_sub_par_pos_x_12"] {
        assert_eq!(get_rsd_extra_exp_ids(id), want);
        assert_eq!(pooled_experiments(id), want);
    }
    assert_eq!(
        get_rsd_extra_exp_ids("abc"),
        vec!["rel_subabc", "rel_sub_completeabc", "rel_sub_par_negabc", "rel_sub_par_posabc"]
    );
    assert_eq!(
        get_rsd_extra_exp_ids("a_rel_sub_b_par_pos_c_complete"),
        vec!["rel_suba__b_c", "rel_sub_completea__b_c", "rel_sub_par_nega__b_c", "rel_sub_par_posa__b_c"]
    );
    assert_eq!(get_rsd_extra_exp_ids("rel_rel_subsub")[0], "rel_subrel_sub");
}

#[test]
fn other_experiments_are_pooled_with_none() {
    assert_eq!(pooled_experiments("sub_rel_x"), vec!["sub_rel_x"]);
    assert_eq!(pooled_experiments(""), vec![""]);
    assert_eq!(pooled_experiments("rel_su"), vec!["rel_su"]);
    assert_eq!(pooled_experiments("x_complete"), vec!["x_complete"]);
}

#[test]
fn plan_fetch_follows_the_query() {
    assert_eq!(plan_fetch("e", "c", Mode::NbSolutions, true), Fetch::Successes { exp_id: "e".to_string() });
    assert_eq!(plan_fetch("e", "c", Mode::NbSolutions, false), Fetch::Successes { exp_id: "e".to_string() });
    assert_eq!(
        plan_fetch("e", "c", Mode::SRTime, true),
        Fetch::Configuration { exp_id: "e".to_string(), config_id: "c".to_string() }
    );
    assert_eq!(
        plan_fetch("rel_sub_e", "c", Mode::SolverTime, true),
        Fetch::Configuration { exp_id: "rel_sub_e".to_string(), config_id: "c".to_string() }
    );
    assert_eq!(plan_fetch("e", "c", Mode::SRTime, false), Fetch::Experiments { exp_ids: vec!["e".to_string()] });
    assert_eq!(
        plan_fetch("rel_sub_e", "", Mode::SRTime, false),
        Fetch::Experiments {
            exp_ids: vec![
                "rel_sub_e".to_string(),
                "rel_sub_complete_e".to_string(),
                "rel_sub_par_neg_e".to_string(),
                "rel_sub_par_pos_e".to_string(),
            ]
        }
    );
}

#[test]
fn mirror_check_mode_answers_by_mode() {
    let rows = vec![counted("SUCCESS", Some(4)), row("SUCCESS", 0.5), row("TIMEOUT", 9.0)];
    assert_eq!(
        check_mode(&rows, Mode::NbSolutions),
        MirrorReport::Solutions(SolutionCount::Agreed { nb_solutions: 4, support: 1 })
    );
    assert_eq!(check_mode(&rows, Mode::SRTime), MirrorReport::Time(MirrorAnswer::MinSr(num(0.5))));
    assert_eq!(check_mode(&rows, Mode::SolverTime), MirrorReport::Time(MirrorAnswer::MinSr(num(0.5))));
}

#[test]
fn from_solve_makes_the_row_of_each_kind() {
    let r = DBRow::from_solve("e", "c", &SolveInformation::Success(report(5, 2.5)));
    assert_eq!(
        r,
        DBRow::new("e".to_string(), "c".to_string(), "SUCCESS".to_string(), num(2.5), Some(5), "node-7".to_string(), 2048, Some(num(7.0)))
    );
    let r = DBRow::from_solve("e", "c", &SolveInformation::Doubted(report(6, 3.5)));
    assert_eq!(
        r,
        DBRow::new("e".to_string(), "c".to_string(), "DOUBTED".to_string(), num(3.5), Some(6), "node-7".to_string(), 2048, Some(num(7.0)))
    );
    let r = DBRow::from_solve("e2", "c2", &timeout(3600));
    assert_eq!(
        r,
        DBRow::new("e2".to_string(), "c2".to_string(), "TIMEOUT".to_string(), num(3600.0), None, "node-2".to_string(), 512, Some(num(3.0)))
    );
    let r = DBRow::from_solve("e", "c", &memout());
    assert_eq!(
        r,
        DBRow::new("e".to_string(), "c".to_string(), "MEMOUT".to_string(), num(12.5), None, "node-3".to_string(), 256, None)
    );
    let r = DBRow::from_solve("e", "c", &crash());
    assert_eq!(
        r,
        DBRow::new("e".to_string(), "c".to_string(), "CRASHED".to_string(), num(0.25), None, "node-4".to_string(), 128, Some(num(9.0)))
    );
}

#[test]
fn the_row_of_a_timeout_holds_its_limit_as_a_double() {
    for limit in [0u64, 1, 3600, (1 << 53) - 1, 1 << 53, (1 << 53) + 1, (1 << 53) + 3, u64::MAX] {
        let r = DBRow::from_solve("e", "c", &timeout(limit));
        assert_eq!(r.measured_time, num(limit as f64), "{}", limit);
    }
}

#[test]
fn store_rows_go_by_experiment_and_configuration() {
    let store = ExperimentStore {
        experiments: vec![
            Entry {
                id: "e1".to_string(),
                value: ExperimentMultiple::new(
                    "m".to_string(),
                    "i".to_string(),
                    num(1.0),
                    vec![
                        Entry { id: "c1".to_string(), value: bare(vec![SolveInformation::Success(report(5, 2.5)), timeout(10)]) },
                        Entry { id: "c2".to_string(), value: bare(vec![]) },
                        Entry { id: "c3".to_string(), value: bare(vec![crash()]) },
                    ],
                ),
            },
            Entry { id: "e2".to_string(), value: ExperimentMultiple::new("m".to_string(), "i".to_string(), num(1.0), vec![]) },
            Entry {
                id: "e3".to_string(),
                value: ExperimentMultiple::new(
                    "m".to_string(),
                    "i".to_string(),
                    num(1.0),
                    vec![Entry { id: "c1".to_string(), value: bare(vec![memout()]) }],
                ),
            },
        ],
    };
    let rows = store_rows(&store);
    let want = vec![
        DBRow::from_solve("e1", "c1", &SolveInformation::Success(report(5, 2.5))),
        DBRow::from_solve("e1", "c1", &timeout(10)),
        DBRow::from_solve("e1", "c3", &crash()),
        DBRow::from_solve("e3", "c1", &memout()),
    ];
    assert_eq!(rows, want);
    assert_eq!(store_rows(&ExperimentStore::new()), vec![]);
}

#[test]
fn commit_row_is_the_row_of_the_record() {
    let record = ExperimentSingle {
        model: "m".to_string(),
        instance: "i".to_string(),
        freq: num(0.5),
        exp_id: "e9".to_string(),
        config_id: "c9".to_string(),
        config: bare(vec![SolveInformation::Success(report(5, 2.5))]),
    };
    assert_eq!(commit_row(&record), DBRow::from_solve("e9", "c9", &SolveInformation::Success(report(5, 2.5))));
}
