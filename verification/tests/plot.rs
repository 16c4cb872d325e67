use rrr::number::Double;
use rrr::outcome::{LevelInformation, SolveInformation, SolveReport};
use rrr::plot::{convert_store_for_plot, count_levels, summarize, PlotSummary};
use rrr::store::{ConfigMultiple, ConfigSettings, Entry, ExperimentMultiple, ExperimentStore};
use rrr::csvtext::{csv_text, written_to_text};
use rrr::table::{
    comes_before, config_names, success_times, table_records, table_text, CSVView, CsvTable,
    TableLine,
};

fn num(x: f64) -> Double {
    Double::from_bits(x.to_bits()).expect("not a number")
}

fn levels(names: Option<Vec<&str>>) -> LevelInformation {
    LevelInformation {
        solver_time: names.map(|n| n.into_iter().map(|s| (s.to_string(), num(0.5))).collect()),
        nodes: None,
        cumulative_nb_solutions: None,
        nb_vars: None,
        nb_clauses: None,
        nb_learnt_clauses: None,
    }
}

fn success(nb: u64, sr: f64, solver: f64, nodes: Option<u64>, names: Option<Vec<&str>>) -> SolveInformation {
    SolveInformation::Success(SolveReport {
        total_solver_time: num(solver),
        total_sr_time: num(sr),
        total_nodes: nodes,
        nb_solutions: nb,
        seed: None,
        memory_limit: 1,
        time_limit: 1,
        machine_info: "n".to_string(),
        level_info: levels(names),
        freq_nb_solutions: None,
    })
}

fn timeout(limit: u64) -> SolveInformation {
    SolveInformation::Timeout { seed: None, memory_limit: 1, time_limit: limit, machine_info: "n".to_string() }
}

fn bare(outcomes: Vec<SolveInformation>) -> ConfigMultiple {
    ConfigMultiple {
        settings: ConfigSettings {
            preprocess: String::new(),
            representation: String::new(),
            solver: String::new(),
            incomparability: false,
            interactive: false,
            native: false,
            compressed: false,
            ordered: false,
            no_solution_blocking: false,
            mdd: false,
            cgroups: false,
        },
        solve_information: outcomes,
    }
}

fn config(id: &str, outcomes: Vec<SolveInformation>) -> Entry<ConfigMultiple> {
    Entry { id: id.to_string(), value: bare(outcomes) }
}

fn experiment(id: &str, configs: Vec<Entry<ConfigMultiple>>) -> Entry<ExperimentMultiple> {
    Entry { id: id.to_string(), value: ExperimentMultiple::new("m".to_string(), "i".to_string(), num(1.0), configs) }
}

fn nums(xs: &[f64]) -> Vec<Double> {
    xs.iter().map(|x| num(*x)).collect()
}

#[test]
fn summary_of_successes() {
    let c = bare(vec![
        success(0, 3.0, 0.3, Some(30), Some(vec!["a", "b", "c"])),
        timeout(9),
        success(7, 1.0, 0.9, None, Some(vec!["a", "b"])),
        success(8, 2.0, 0.1, Some(5), Some(vec!["a"])),
        success(9, 1.0, 0.5, Some(50), None),
    ]);
    let s = summarize(&c);
    assert_eq!(
        s,
        PlotSummary {
            nb_data_points: 4,
            solver_times: nums(&[0.1, 0.3, 0.5, 0.9]),
            sr_times: nums(&[1.0, 1.0, 2.0, 3.0]),
            solver_nodes: vec![0, 5, 30, 50],
            nb_levels: 2,
            nb_solutions: 7,
            best_run: Some(4),
        }
    );
}

#[test]
fn summary_without_a_success() {
    let s = summarize(&bare(vec![timeout(1), timeout(2)]));
    assert_eq!(
        s,
        PlotSummary {
            nb_data_points: 0,
            solver_times: vec![],
            sr_times: vec![],
            solver_nodes: vec![],
            nb_levels: 0,
            nb_solutions: 0,
            best_run: None,
        }
    );
    assert_eq!(summarize(&bare(vec![])).best_run, None);
}

#[test]
fn the_best_run_is_the_last_of_the_fastest() {
    let c = bare(vec![
        success(1, 2.0, 1.0, None, Some(vec!["a"])),
        success(1, 1.0, 1.0, None, Some(vec!["a", "b"])),
        success(1, 5.0, 1.0, None, Some(vec!["a", "b", "c"])),
        success(1, 1.0, 1.0, None, Some(vec!["a", "b", "c", "d"])),
        success(1, 1.5, 1.0, None, Some(vec![])),
    ]);
    let s = summarize(&c);
    assert_eq!(s.best_run, Some(3));
    assert_eq!(s.nb_levels, 4);
}

#[test]
fn levels_are_counted_by_name() {
    assert_eq!(count_levels(&vec![]), 0);
    let l = vec![("1".to_string(), num(1.0)), ("2".to_string(), num(1.0)), ("1".to_string(), num(2.0))];
    assert_eq!(count_levels(&l), 2);
}

#[test]
fn plot_view_keeps_the_shape_of_the_store() {
    let store = ExperimentStore {
        experiments: vec![
            experiment("e1", vec![config("c1", vec![success(3, 1.0, 1.0, Some(2), None)]), config("c2", vec![])]),
            experiment("e2", vec![]),
        ],
    };
    let view = convert_store_for_plot(&store);
    assert_eq!(view.len(), 2);
    assert_eq!(view[0].id, "e1");
    assert_eq!(view[1].id, "e2");
    assert_eq!(view[1].value, vec![]);
    assert_eq!(view[0].value.len(), 2);
    assert_eq!(view[0].value[0].id, "c1");
    assert_eq!(view[0].value[0].value, summarize(&store.experiments[0].value.configs[0].value));
    assert_eq!(view[0].value[0].value.nb_solutions, 3);
    assert_eq!(view[0].value[1].id, "c2");
    assert_eq!(view[0].value[1].value.nb_data_points, 0);
}

#[test]
fn dictionary_order_is_that_of_strings() {
    let words = ["", "a", "ab", "abc", "b", "B", "a b", "ä", "z", "zz", "é", "\u{10000}", "\u{ffff}", "aa"];
    for a in words {
        for b in words {
            assert_eq!(comes_before(a, b), a < b, "{:?} < {:?}", a, b);
        }
    }
}

#[test]
fn flat_table_has_a_line_for_each_success() {
    let store = ExperimentStore {
        experiments: vec![
            experiment(
                "e1",
                vec![
                    config("c1", vec![success(3, 1.0, 0.5, None, None), timeout(4), success(3, 2.0, 1.5, None, None)]),
                    config("c2", vec![timeout(4)]),
                ],
            ),
            experiment("e2", vec![config("c1", vec![success(3, 7.0, 6.0, None, None)])]),
        ],
    };
    let line = |e: &str, c: &str, solver: f64, total: f64| CSVView::new(e.to_string(), c.to_string(), num(solver), num(total));
    assert_eq!(
        store.convert_to_csv(),
        vec![line("e1", "c1", 0.5, 1.0), line("e1", "c1", 1.5, 2.0), line("e2", "c1", 6.0, 7.0)]
    );
    assert_eq!(ExperimentStore::new().convert_to_csv(), vec![]);
}

#[test]
fn table_has_a_column_for_each_configuration() {
    let store = ExperimentStore {
        experiments: vec![
            experiment(
                "e1",
                vec![
                    config("zeta", vec![success(3, 1.0, 0.5, None, None), timeout(4), success(3, 2.0, 1.5, None, None)]),
                    config("alpha", vec![timeout(4)]),
                ],
            ),
            experiment("e2", vec![config("mid", vec![success(3, 7.0, 6.0, None, None)]), config("alpha", vec![])]),
            experiment("e3", vec![]),
        ],
    };
    assert_eq!(config_names(&store), vec!["alpha", "mid", "zeta"]);
    let table = store.convert_to_csv_table();
    assert_eq!(
        table,
        CsvTable {
            header: vec!["experiment_names".to_string(), "alpha".to_string(), "mid".to_string(), "zeta".to_string()],
            lines: vec![
                TableLine { experiment: "e1".to_string(), cells: vec![Some(vec![]), None, Some(nums(&[1.0, 2.0]))] },
                TableLine { experiment: "e2".to_string(), cells: vec![Some(vec![]), Some(nums(&[7.0])), None] },
                TableLine { experiment: "e3".to_string(), cells: vec![None, None, None] },
            ],
        }
    );
    assert_eq!(success_times(&store.experiments[0].value.configs[0].value), nums(&[1.0, 2.0]));
    let empty = ExperimentStore::new().convert_to_csv_table();
    assert_eq!(empty.header, vec!["experiment_names"]);
    assert_eq!(empty.lines, vec![]);
}

fn texts(rows: &[&[&str]]) -> Vec<Vec<String>> {
    rows.iter().map(|r| r.iter().map(|f| f.to_string()).collect()).collect()
}

#[test]
fn csv_text_writes_the_records_in_order() {
    assert_eq!(csv_text(&texts(&[&["a", "b", "c"], &["x", "y", "z"]])), Some("a,b,c\nx,y,z\n".to_string()));
    assert_eq!(csv_text(&vec![]), Some(String::new()));
    assert_eq!(csv_text(&texts(&[&["only"]])), Some("only\n".to_string()));
}

#[test]
fn csv_text_quotes_where_it_is_needed() {
    assert_eq!(
        csv_text(&texts(&[&["a,b", "say \"hi\"", "two\nlines", " plain "]])),
        Some("\"a,b\",\"say \"\"hi\"\"\",\"two\nlines\", plain \n".to_string())
    );
    assert_eq!(csv_text(&texts(&[&[""]])), Some("\"\"\n".to_string()));
    assert_eq!(csv_text(&texts(&[&["", ""]])), Some(",\n".to_string()));
}

#[test]
fn csv_text_refuses_records_of_different_lengths() {
    assert_eq!(csv_text(&texts(&[&["a", "b"], &["x"]])), None);
    assert_eq!(csv_text(&texts(&[&["a"], &["x", "y"]])), None);
}

#[test]
fn table_text_fills_the_empty_cells() {
    let table = CsvTable {
        header: vec!["experiment_names".to_string(), "alpha".to_string(), "zeta".to_string()],
        lines: vec![
            TableLine { experiment: "e1".to_string(), cells: vec![Some("1.5".to_string()), None] },
            TableLine { experiment: "e,2".to_string(), cells: vec![None, Some("NaN".to_string())] },
        ],
    };
    assert_eq!(
        table_records(&table),
        texts(&[&["experiment_names", "alpha", "zeta"], &["e1", "1.5", "NaN"], &["e,2", "NaN", "NaN"]])
    );
    assert_eq!(
        table_text(&table),
        Some("experiment_names,alpha,zeta\ne1,1.5,NaN\n\"e,2\",NaN,NaN\n".to_string())
    );
    let ragged = CsvTable {
        header: vec!["experiment_names".to_string(), "alpha".to_string()],
        lines: vec![TableLine { experiment: "e1".to_string(), cells: vec![None, None] }],
    };
    assert_eq!(table_text(&ragged), None);
    let empty: CsvTable<String> = CsvTable { header: vec!["experiment_names".to_string()], lines: vec![] };
    assert_eq!(table_text(&empty), Some("experiment_names\n".to_string()));
}

#[test]
fn written_bytes_become_text_where_they_are_utf8() {
    assert_eq!(written_to_text(Some(b"a,b\n".to_vec())), Some("a,b\n".to_string()));
    assert_eq!(written_to_text(Some(vec![0xc3, 0xa9, b'\n'])), Some("é\n".to_string()));
    assert_eq!(written_to_text(Some(vec![])), Some(String::new()));
    assert_eq!(written_to_text(Some(vec![0xff, b'a'])), None);
    assert_eq!(written_to_text(Some(vec![0xc3])), None);
    assert_eq!(written_to_text(None), None);
}

#[test]
fn csv_text_goes_on_after_no_refused_record() {
    // a record that would fit behind the rest of a refused one is refused too
    assert_eq!(csv_text(&texts(&[&["a", "b", "c"], &["x"], &["y", "z"]])), None);
    assert_eq!(csv_text(&texts(&[&[], &[]])), Some("\"\"\n\"\"\n".to_string()));
    assert_eq!(csv_text(&texts(&[&[], &[""]])), None);
}
