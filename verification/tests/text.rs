use rrr::store::{find, has_distinct_ids, Entry, ExperimentMultiple, ExperimentStore};
use rrr::number::Double;
use rrr::text::{chars_of, contains, matches_at, remove_all};

fn words() -> Vec<&'static str> {
    vec![
        "",
        "a",
        "aa",
        "aaa",
        "aaaa",
        "ab",
        "aba",
        "abab",
        "ababa",
        "rel_sub",
        "rel_sub_complete_x",
        "x_rel_sub_y_rel_sub_z",
        "rel_rel_subsub",
        "_par_neg_par_neg",
        "_par_pos_complete",
        "héllo wörld",
        "ünï_complete_ünï",
        "\u{10000}a\u{10000}",
    ]
}

#[test]
fn chars_of_are_the_characters() {
    for w in words() {
        let want: Vec<char> = w.chars().collect();
        assert_eq!(chars_of(w), want);
    }
}

#[test]
fn contains_finds_what_stands_in_the_text() {
    for text in words() {
        for pattern in words() {
            assert_eq!(contains(text, pattern), text.contains(pattern), "{:?} in {:?}", pattern, text);
        }
    }
    assert!(contains("abc_rel_sub", "rel_sub"));
    assert!(!contains("rel_su", "rel_sub"));
    assert!(contains("", ""));
}

#[test]
fn matches_at_compares_in_place() {
    let text = chars_of("abcabc");
    let bc = chars_of("bc");
    assert!(matches_at(&text, 1, &bc));
    assert!(matches_at(&text, 4, &bc));
    assert!(!matches_at(&text, 0, &bc));
    assert!(!matches_at(&text, 5, &bc));
    assert!(!matches_at(&text, 6, &bc));
    assert!(!matches_at(&text, 7, &bc));
    assert!(matches_at(&text, 6, &chars_of("")));
    assert!(!matches_at(&text, 7, &chars_of("")));
}

#[test]
fn remove_all_takes_each_occurrence_out() {
    for text in words() {
        for pattern in words() {
            assert_eq!(remove_all(text, pattern), text.replace(pattern, ""), "{:?} from {:?}", pattern, text);
        }
    }
    assert_eq!(remove_all("aaa", "aa"), "a");
    assert_eq!(remove_all("x_complete_y_complete", "_complete"), "x_y");
    assert_eq!(remove_all("abc", ""), "abc");
}

#[test]
fn find_gives_the_first_entry_under_an_identifier() {
    let entries = vec![
        Entry { id: "a".to_string(), value: ExperimentStore::new() },
        Entry { id: "b".to_string(), value: ExperimentStore::new() },
        Entry { id: "a".to_string(), value: ExperimentStore::new() },
        Entry { id: "".to_string(), value: ExperimentStore::new() },
    ];
    assert_eq!(find(&entries, "a"), Some(0));
    assert_eq!(find(&entries, "b"), Some(1));
    assert_eq!(find(&entries, ""), Some(3));
    assert_eq!(find(&entries, "c"), None);
    assert_eq!(find(&entries, "A"), None);
    let none: Vec<Entry<ExperimentStore>> = vec![];
    assert_eq!(find(&none, "a"), None);
    assert_eq!(ExperimentStore::new().experiments.len(), 0);
}

fn experiment(config_ids: &[&str]) -> ExperimentMultiple {
    let configs = config_ids
        .iter()
        .map(|id| Entry {
            id: id.to_string(),
            value: rrr::store::ConfigMultiple {
                settings: rrr::store::ConfigSettings {
                    preprocess: String::new(),
                    representation: String::new(),
                    solver: String::new(),
                    incomparability: false,
                    interactive: false,
                    native: false,
                    compressed: false,
                    ordered: false,
                    no_solution_blocking: false,
                    mdd: false,
                    cgroups: false,
                },
                solve_information: vec![],
            },
        })
        .collect();
    ExperimentMultiple::new(String::new(), String::new(), Double::zero(), configs)
}

#[test]
fn a_store_is_well_formed_where_no_identifier_stands_twice() {
    assert!(ExperimentStore::new().is_well_formed());
    let store = |ids: &[(&str, &[&str])]| ExperimentStore {
        experiments: ids
            .iter()
            .map(|(id, configs)| Entry { id: id.to_string(), value: experiment(configs) })
            .collect(),
    };
    assert!(store(&[("e1", &["a", "b"]), ("e2", &["a", "b"]), ("e3", &[])]).is_well_formed());
    assert!(!store(&[("e1", &["a", "b"]), ("e2", &[]), ("e1", &[])]).is_well_formed());
    assert!(!store(&[("e1", &["a", "b"]), ("e2", &["c", "d", "c"])]).is_well_formed());
    assert!(!store(&[("e1", &["a", "a"])]).is_well_formed());
    assert!(store(&[("e1", &["a", "A", ""])]).is_well_formed());
    assert!(has_distinct_ids(&store(&[("x", &[]), ("y", &[])]).experiments));
    assert!(!has_distinct_ids(&store(&[("x", &[]), ("y", &[]), ("y", &[])]).experiments));
    let none: Vec<Entry<ExperimentStore>> = vec![];
    assert!(has_distinct_ids(&none));
}
