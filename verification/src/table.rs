use crate::best::successes;
use crate::csvtext::{
    csv_of, csv_text, fields_of, records_of, records_text, same_width, text_of_written,
};
use crate::number::Double;
use crate::outcome::SolveInformation;
use crate::plot::sr_times_of;
use crate::store::{
    models, ConfigModel, ConfigMultiple, Entry, ExperimentModel, ExperimentStore, Filed,
};
use crate::text::chars_of;
use vstd::prelude::*;
use vstd::string::StringExecFns;

verus! {

/// Whether the text `a` comes before the text `b` in the order of
/// dictionaries, characters by their code.
pub open spec fn text_before(a: Seq<char>, b: Seq<char>) -> bool
    decreases a.len(),
{
    if b.len() == 0 {
        false
    } else if a.len() == 0 {
        true
    } else if a[0] != b[0] {
        (a[0] as u32) < (b[0] as u32)
    } else {
        text_before(a.skip(1), b.skip(1))
    }
}

/// No text comes before itself.
pub proof fn text_before_is_strict(a: Seq<char>)
    ensures
        !text_before(a, a),
    decreases a.len(),
{
    if a.len() > 0 {
        text_before_is_strict(a.skip(1));
    }
}

/// Of two different texts one comes before the other.
pub proof fn text_before_is_total(a: Seq<char>, b: Seq<char>)
    requires
        a != b,
    ensures
        text_before(a, b) || text_before(b, a),
    decreases a.len(),
{
    if a.len() > 0 && b.len() > 0 && a[0] != b[0] {
        vstd::utf8::char_u32_cast(a[0], a[0] as u32);
        vstd::utf8::char_u32_cast(b[0], b[0] as u32);
    }
    if a.len() > 0 && b.len() > 0 && a[0] == b[0] {
        if a.skip(1) == b.skip(1) {
            assert(a =~= seq![a[0]] + a.skip(1));
            assert(b =~= seq![b[0]] + b.skip(1));
        }
        text_before_is_total(a.skip(1), b.skip(1));
    } else if a.len() == 0 && b.len() == 0 {
        assert(a =~= b);
    }
}

/// What comes before a text comes before all that the text comes before.
pub proof fn text_before_is_transitive(a: Seq<char>, b: Seq<char>, c: Seq<char>)
    requires
        text_before(a, b),
        text_before(b, c),
    ensures
        text_before(a, c),
    decreases a.len(),
{
    if a.len() > 0 && a[0] == b[0] && b[0] == c[0] {
        text_before_is_transitive(a.skip(1), b.skip(1), c.skip(1));
    }
}

/// Whether the text `a` comes before the text `b`.
pub fn comes_before(a: &str, b: &str) -> (r: bool)
    ensures
        r == text_before(a@, b@),
{
    let left = chars_of(a);
    let right = chars_of(b);
    let mut k: usize = 0;
    assert(left@.skip(0) =~= left@ && right@.skip(0) =~= right@);
    while k < left.len() && k < right.len() && left[k] == right[k]
        invariant
            k <= left.len(),
            k <= right.len(),
            text_before(left@, right@) == text_before(left@.skip(k as int), right@.skip(k as int)),
        decreases left.len() - k,
    {
        assert(left@.skip(k as int).skip(1) =~= left@.skip(k + 1));
        assert(right@.skip(k as int).skip(1) =~= right@.skip(k + 1));
        k += 1;
    }
    if k >= right.len() {
        false
    } else if k >= left.len() {
        true
    } else {
        (left[k] as u32) < (right[k] as u32)
    }
}

/// The texts of the strings, in order.
pub open spec fn names(strings: Seq<String>) -> Seq<Seq<char>> {
    Seq::new(strings.len(), |i: int| strings[i]@)
}

/// Each text comes before the next.
pub open spec fn ascending(texts: Seq<Seq<char>>) -> bool {
    forall|i: int, j: int| 0 <= i < j < texts.len()
        ==> text_before(#[trigger] texts[i], #[trigger] texts[j])
}

/// The identifiers of all the configurations of the first `upto`
/// experiments.
pub open spec fn config_ids(store: Seq<Filed<ExperimentModel>>, upto: int) -> Set<
    Seq<char>,
> {
    Set::new(
        |id: Seq<char>|
            exists|i: int, j: int|
                0 <= i < upto && i < store.len() && 0 <= j < store[i].value.configs.len() && (
                #[trigger] store[i].value.configs[j]).id == id,
    )
}

/// Puts the name in its place among the ascending names, unless it is
/// there.
fn put_name(columns: &mut Vec<String>, name: &str)
    requires
        ascending(names(old(columns)@)),
    ensures
        ascending(names(final(columns)@)),
        names(final(columns)@).to_set() == names(old(columns)@).to_set().insert(name@),
{
    let ghost before = names(columns@);
    let mut at: usize = 0;
    while at < columns.len() && comes_before(columns[at].as_str(), name)
        invariant
            at <= columns.len(),
            *columns == *old(columns),
            before == names(columns@),
            forall|i: int| 0 <= i < at ==> text_before(#[trigger] before[i], name@),
        decreases columns.len() - at,
    {
        at += 1;
    }
    if at < columns.len() && columns[at] == String::from_str(name) {
        proof {
            assert(before[at as int] == name@);
            assert(before.to_set().contains(name@));
            assert(before.to_set().insert(name@) =~= before.to_set());
        }
        return ;
    }
    columns.insert(at, String::from_str(name));
    proof {
        let after = names(columns@);
        assert(after =~= before.insert(at as int, name@));
        if at < before.len() {
            text_before_is_total(before[at as int], name@);
        }
        assert forall|i: int, j: int| 0 <= i < j < after.len() implies text_before(
            #[trigger] after[i],
            #[trigger] after[j],
        ) by {
            if j < at {
                assert(text_before(before[i], before[j]));
            } else if j == at {
                assert(text_before(before[i], name@));
            } else if i < at {
                assert(text_before(before[i], before[j - 1]));
            } else if i == at {
                if j - 1 > at {
                    assert(text_before(before[at as int], before[j - 1]));
                    text_before_is_transitive(name@, before[at as int], before[j - 1]);
                }
            } else {
                assert(text_before(before[i - 1], before[j - 1]));
            }
        }
        assert(after.to_set() =~= before.to_set().insert(name@)) by {
            assert forall|x: Seq<char>| after.to_set().contains(x) <==> before.to_set().insert(
                name@,
            ).contains(x) by {
                if after.contains(x) {
                    let i = choose|i: int| 0 <= i < after.len() && after[i] == x;
                    if i < at {
                        assert(before[i] == x);
                    } else if i > at {
                        assert(before[i - 1] == x);
                    }
                }
                if before.contains(x) {
                    let i = choose|i: int| 0 <= i < before.len() && before[i] == x;
                    if i < at {
                        assert(after[i] == x);
                    } else {
                        assert(after[i + 1] == x);
                    }
                }
                if x == name@ {
                    assert(after[at as int] == x);
                }
            }
        }
    }
}

/// The identifiers of the first `upto` configurations.
pub open spec fn ids_of(configs: Seq<Filed<ConfigModel>>, upto: int) -> Set<Seq<char>> {
    Set::new(|id: Seq<char>| exists|x: int| 0 <= x < upto && x < configs.len()
        && (#[trigger] configs[x]).id == id)
}

/// The identifiers of one more configuration.
proof fn ids_of_step(configs: Seq<Filed<ConfigModel>>, j: int)
    requires
        0 <= j < configs.len(),
    ensures
        ids_of(configs, j + 1) == ids_of(configs, j).insert(configs[j].id),
        ids_of(configs, 0) == Set::<Seq<char>>::empty(),
{
    assert forall|id: Seq<char>| ids_of(configs, j + 1).contains(id) <==> ids_of(configs, j).insert(
        configs[j].id,
    ).contains(id) by {
        if ids_of(configs, j + 1).contains(id) {
            let x = choose|x: int| 0 <= x < j + 1 && x < configs.len()
                && (#[trigger] configs[x]).id == id;
            if x < j {
                assert(ids_of(configs, j).contains(id));
            }
        }
        if ids_of(configs, j).contains(id) {
            let x = choose|x: int| 0 <= x < j && x < configs.len()
                && (#[trigger] configs[x]).id == id;
            assert(configs[x].id == id);
        }
        if id == configs[j].id {
            assert(configs[j].id == id);
        }
    }
    assert(ids_of(configs, j + 1) =~= ids_of(configs, j).insert(configs[j].id));
    assert(ids_of(configs, 0) =~= Set::<Seq<char>>::empty());
}

/// The identifiers of the configurations of one more experiment.
proof fn config_ids_step(store: Seq<Filed<ExperimentModel>>, i: int)
    requires
        0 <= i < store.len(),
    ensures
        config_ids(store, i + 1) == config_ids(store, i).union(
            ids_of(store[i].value.configs, store[i].value.configs.len() as int),
        ),
        config_ids(store, 0) == Set::<Seq<char>>::empty(),
{
    let cs = store[i].value.configs;
    assert forall|id: Seq<char>|
        config_ids(store, i + 1).contains(id) <==> config_ids(store, i).union(
            ids_of(cs, cs.len() as int),
        ).contains(id) by {
        if config_ids(store, i + 1).contains(id) {
            let (a, b) = choose|a: int, b: int|
                0 <= a < i + 1 && a < store.len() && 0 <= b < store[a].value.configs.len() && (
                #[trigger] store[a].value.configs[b]).id == id;
            if a < i {
                assert(config_ids(store, i).contains(id));
            } else {
                assert(cs[b].id == id);
                assert(ids_of(cs, cs.len() as int).contains(id));
            }
        }
        if config_ids(store, i).contains(id) {
            let (a, b) = choose|a: int, b: int|
                0 <= a < i && a < store.len() && 0 <= b < store[a].value.configs.len() && (
                #[trigger] store[a].value.configs[b]).id == id;
            assert(store[a].value.configs[b].id == id);
        }
        if ids_of(cs, cs.len() as int).contains(id) {
            let x = choose|x: int| 0 <= x < cs.len() && (#[trigger] cs[x]).id == id;
            assert(store[i].value.configs[x].id == id);
        }
    }
    assert(config_ids(store, i + 1) =~= config_ids(store, i).union(ids_of(cs, cs.len() as int)));
    assert(config_ids(store, 0) =~= Set::<Seq<char>>::empty());
}

/// The identifiers of the configurations of the store, each once, in the
/// order of dictionaries.
pub fn config_names(store: &ExperimentStore) -> (r: Vec<String>)
    ensures
        ascending(names(r@)),
        names(r@).to_set() == config_ids(store@, store@.len() as int),
{
    let ghost ms = store@;
    let mut columns: Vec<String> = Vec::new();
    let mut i: usize = 0;
    proof {
        assert(config_ids(ms, 0) =~= Set::<Seq<char>>::empty());
        assert(names(columns@).to_set() =~= Set::<Seq<char>>::empty());
    }
    while i < store.experiments.len()
        invariant
            i <= store.experiments.len(),
            ms == store@,
            ascending(names(columns@)),
            names(columns@).to_set() == config_ids(ms, i as int),
        decreases store.experiments.len() - i,
    {
        let configs = &store.experiments[i].value.configs;
        let ghost cs = ms[i as int].value.configs;
        assert(cs == models(configs@));
        let mut j: usize = 0;
        proof {
            assert(ids_of(cs, 0) =~= Set::<Seq<char>>::empty());
            assert(config_ids(ms, i as int).union(ids_of(cs, 0)) =~= config_ids(ms, i as int));
        }
        while j < configs.len()
            invariant
                j <= configs.len(),
                i < store.experiments.len(),
                ms == store@,
                cs == ms[i as int].value.configs,
                cs == models(configs@),
                ascending(names(columns@)),
                names(columns@).to_set() == config_ids(ms, i as int).union(ids_of(cs, j as int)),
            decreases configs.len() - j,
        {
            put_name(&mut columns, configs[j].id.as_str());
            proof {
                ids_of_step(cs, j as int);
                assert(cs[j as int].id == configs@[j as int].id@);
                assert(config_ids(ms, i as int).union(ids_of(cs, j as int)).insert(cs[j as int].id)
                    =~= config_ids(ms, i as int).union(ids_of(cs, j + 1)));
            }
            j += 1;
        }
        proof {
            config_ids_step(ms, i as int);
        }
        i += 1;
    }
    columns
}

/// One line of the flat table: the times of one success.
#[derive(Clone, Debug, PartialEq, Eq)]
pub struct CSVView {
    pub experiment: String,
    pub config: String,
    pub solver_time: Double,
    pub total_time: Double,
}

/// The model of a line of the flat table.
pub struct FlatLine {
    pub experiment: Seq<char>,
    pub config: Seq<char>,
    pub solver_time: Double,
    pub total_time: Double,
}

impl View for CSVView {
    type V = FlatLine;

    open spec fn view(&self) -> FlatLine {
        FlatLine {
            experiment: self.experiment@,
            config: self.config@,
            solver_time: self.solver_time,
            total_time: self.total_time,
        }
    }
}

impl CSVView {
    /// A line with these columns.
    pub fn new(experiment: String, config: String, solver_time: Double, total_time: Double) -> (r:
        CSVView)
        ensures
            r == (CSVView { experiment, config, solver_time, total_time }),
    {
        CSVView { experiment, config, solver_time, total_time }
    }
}

/// The lines of the successes of one configuration, in order.
pub open spec fn lines_of_config(exp_id: Seq<char>, config: Filed<ConfigModel>) -> Seq<FlatLine> {
    let won = successes(config.value.outcomes);
    Seq::new(
        won.len(),
        |k: int|
            FlatLine {
                experiment: exp_id,
                config: config.id,
                solver_time: won[k].total_solver_time,
                total_time: won[k].total_sr_time,
            },
    )
}

/// The lines of the successes of the configurations, configuration after
/// configuration.
pub open spec fn lines_of_configs(exp_id: Seq<char>, configs: Seq<Filed<ConfigModel>>) -> Seq<
    FlatLine,
>
    decreases configs.len(),
{
    if configs.len() == 0 {
        seq![]
    } else {
        lines_of_configs(exp_id, configs.drop_last()) + lines_of_config(exp_id, configs.last())
    }
}

/// The lines of the successes of a store, experiment after experiment.
pub open spec fn flat_lines(store: Seq<Filed<ExperimentModel>>) -> Seq<FlatLine>
    decreases store.len(),
{
    if store.len() == 0 {
        seq![]
    } else {
        flat_lines(store.drop_last())
            + lines_of_configs(store.last().id, store.last().value.configs)
    }
}

/// The models of the lines, in order.
pub open spec fn line_models(lines: Seq<CSVView>) -> Seq<FlatLine> {
    Seq::new(lines.len(), |i: int| lines[i]@)
}

/// The outer times of the successes of a configuration, in the order of
/// its runs.
pub fn success_times(config: &ConfigMultiple) -> (r: Vec<Double>)
    ensures
        r@ == sr_times_of(successes(config@.outcomes)),
{
    let outcomes = &config.solve_information;
    let mut times: Vec<Double> = Vec::new();
    let mut k: usize = 0;
    assert(outcomes@.take(0) =~= Seq::empty());
    assert(times@ =~= sr_times_of(successes(outcomes@.take(0))));
    while k < outcomes.len()
        invariant
            k <= outcomes.len(),
            times@ == sr_times_of(successes(outcomes@.take(k as int))),
        decreases outcomes.len() - k,
    {
        assert(outcomes@.take(k + 1).drop_last() =~= outcomes@.take(k as int));
        let ghost won = successes(outcomes@.take(k as int));
        match &outcomes[k] {
            SolveInformation::Success(report) => {
                assert(sr_times_of(won.push(*report))
                    =~= sr_times_of(won).push(report.total_sr_time));
                times.push(report.total_sr_time);
            },
            _ => {},
        }
        k += 1;
    }
    assert(outcomes@.take(outcomes@.len() as int) =~= outcomes@);
    times
}

/// What the table says of an experiment under the configuration `name`:
/// the outer times of the successes of that configuration, in the order of
/// its runs; nothing if the experiment has no such configuration.
pub open spec fn cell_of(configs: Seq<Filed<ConfigModel>>, name: Seq<char>) -> Option<Seq<Double>>
    decreases configs.len(),
{
    if configs.len() == 0 {
        None
    } else if configs.last().id == name {
        Some(sr_times_of(successes(configs.last().value.outcomes)))
    } else {
        cell_of(configs.drop_last(), name)
    }
}

/// One line of the table of configurations: an experiment, and for each
/// column what it has there, if anything.
#[derive(Clone, Debug, PartialEq, Eq)]
pub struct TableLine<C> {
    pub experiment: String,
    pub cells: Vec<Option<C>>,
}

/// The table of configurations: the names of its columns, the first of
/// which is that of the experiments, and one line for each experiment.
#[derive(Clone, Debug, PartialEq, Eq)]
pub struct CsvTable<C> {
    pub header: Vec<String>,
    pub lines: Vec<TableLine<C>>,
}

/// The model of a cell.
pub open spec fn cell_model(cell: Option<Vec<Double>>) -> Option<Seq<Double>> {
    match cell {
        Some(times) => Some(times@),
        None => None,
    }
}

/// Whether the line is that of the experiment under these columns.
pub open spec fn is_line(
    line: TableLine<Vec<Double>>,
    experiment: Filed<ExperimentModel>,
    columns: Seq<Seq<char>>,
) -> bool {
    &&& line.experiment@ == experiment.id
    &&& line.cells@.len() == columns.len()
    &&& forall|c: int|
        0 <= c < columns.len() ==> cell_model(#[trigger] line.cells@[c]) == cell_of(
            experiment.value.configs,
            columns[c],
        )
}

/// Whether the table is that of the store: its columns are the
/// experiments' and then the identifiers of the configurations of the
/// store, each once, in the order of dictionaries; its lines are those of
/// the experiments, in the order of the store.
pub open spec fn is_table(table: CsvTable<Vec<Double>>, store: Seq<Filed<ExperimentModel>>)
    -> bool {
    let columns = names(table.header@).skip(1);
    &&& table.header@.len() > 0
    &&& table.header@[0]@ == "experiment_names"@
    &&& ascending(columns)
    &&& columns.to_set() == config_ids(store, store.len() as int)
    &&& table.lines@.len() == store.len()
    &&& forall|i: int|
        0 <= i < store.len() ==> is_line(#[trigger] table.lines@[i], store[i], columns)
}

/// What the table says of an experiment under the configuration `name`.
fn cell(configs: &Vec<Entry<ConfigMultiple>>, name: &String) -> (r: Option<Vec<Double>>)
    ensures
        cell_model(r) == cell_of(models(configs@), name@),
{
    let ghost ms = models(configs@);
    let mut j = configs.len();
    assert(ms.take(ms.len() as int) =~= ms);
    while j > 0
        invariant
            j <= configs.len(),
            ms == models(configs@),
            cell_of(ms, name@) == cell_of(ms.take(j as int), name@),
        decreases j,
    {
        assert(ms.take(j as int).drop_last() =~= ms.take(j - 1));
        assert(ms.take(j as int).last() == configs@[j - 1]@);
        if configs[j - 1].id == *name {
            return Some(success_times(&configs[j - 1].value));
        }
        j -= 1;
    }
    None
}

impl ExperimentStore {
    /// The flat table of the store: one line for each success, with its
    /// experiment, its configuration and its two times.
    pub fn convert_to_csv(&self) -> (r: Vec<CSVView>)
        ensures
            line_models(r@) == flat_lines(self@),
    {
        let ghost ms = self@;
        let mut lines: Vec<CSVView> = Vec::new();
        let mut i: usize = 0;
        assert(ms.take(0) =~= Seq::empty());
        assert(line_models(lines@) =~= flat_lines(ms.take(0)));
        while i < self.experiments.len()
            invariant
                i <= self.experiments.len(),
                ms == self@,
                line_models(lines@) == flat_lines(ms.take(i as int)),
            decreases self.experiments.len() - i,
        {
            let experiment = &self.experiments[i];
            let ghost id = ms[i as int].id;
            let ghost configs = ms[i as int].value.configs;
            let ghost before = flat_lines(ms.take(i as int));
            assert(configs == models(experiment.value.configs@));
            let mut j: usize = 0;
            assert(configs.take(0) =~= Seq::empty());
            assert(before + lines_of_configs(id, configs.take(0)) =~= before);
            while j < experiment.value.configs.len()
                invariant
                    j <= experiment.value.configs.len(),
                    id == experiment.id@,
                    configs == models(experiment.value.configs@),
                    line_models(lines@) == before + lines_of_configs(id, configs.take(j as int)),
                decreases experiment.value.configs.len() - j,
            {
                let config = &experiment.value.configs[j];
                let outcomes = &config.value.solve_information;
                let ghost so_far = before + lines_of_configs(id, configs.take(j as int));
                let ghost todo = lines_of_config(id, configs[j as int]);
                assert(outcomes@ == configs[j as int].value.outcomes);
                let mut k: usize = 0;
                assert(outcomes@.take(0) =~= Seq::empty());
                assert(so_far + lines_of_config(
                    id,
                    Filed {
                        id: config.id@,
                        value: ConfigModel {
                            settings: config.value.settings,
                            outcomes: outcomes@.take(0),
                        },
                    },
                ) =~= so_far);
                while k < outcomes.len()
                    invariant
                        k <= outcomes.len(),
                        id == experiment.id@,
                        line_models(lines@) == so_far + lines_of_config(
                            id,
                            Filed {
                                id: config.id@,
                                value: ConfigModel {
                                    settings: config.value.settings,
                                    outcomes: outcomes@.take(k as int),
                                },
                            },
                        ),
                    decreases outcomes.len() - k,
                {
                    let ghost seen = Filed {
                        id: config.id@,
                        value: ConfigModel {
                            settings: config.value.settings,
                            outcomes: outcomes@.take(k as int),
                        },
                    };
                    let ghost next = Filed {
                        id: config.id@,
                        value: ConfigModel {
                            settings: config.value.settings,
                            outcomes: outcomes@.take(k + 1),
                        },
                    };
                    assert(outcomes@.take(k + 1).drop_last() =~= outcomes@.take(k as int));
                    match &outcomes[k] {
                        SolveInformation::Success(report) => {
                            let ghost held = line_models(lines@);
                            lines.push(
                                CSVView::new(
                                    experiment.id.clone(),
                                    config.id.clone(),
                                    report.total_solver_time,
                                    report.total_sr_time,
                                ),
                            );
                            assert(line_models(lines@) =~= held.push(lines@[lines@.len() - 1]@));
                            assert(lines_of_config(id, next) =~= lines_of_config(id, seen).push(
                                lines@[lines@.len() - 1]@,
                            ));
                            assert(line_models(lines@) =~= so_far + lines_of_config(id, next));
                        },
                        _ => {
                            assert(lines_of_config(id, next) =~= lines_of_config(id, seen));
                        },
                    }
                    k += 1;
                }
                proof {
                    assert(outcomes@.take(outcomes@.len() as int) =~= outcomes@);
                    assert(configs.take(j + 1).drop_last() =~= configs.take(j as int));
                    assert(configs.take(j + 1).last() == configs[j as int]);
                    assert(before + lines_of_configs(id, configs.take(j + 1)) =~= so_far + todo);
                }
                j += 1;
            }
            proof {
                assert(configs.take(configs.len() as int) =~= configs);
                assert(ms.take(i + 1).drop_last() =~= ms.take(i as int));
            }
            i += 1;
        }
        assert(ms.take(ms.len() as int) =~= ms);
        lines
    }

    /// The table of configurations of the store: for each experiment and
    /// each configuration of the store the outer times of the successes
    /// of that configuration under that experiment.
    pub fn convert_to_csv_table(&self) -> (r: CsvTable<Vec<Double>>)
        ensures
            is_table(r, self@),
    {
        let ghost ms = self@;
        let columns = config_names(self);
        let mut header: Vec<String> = Vec::new();
        header.push(String::from_str("experiment_names"));
        let mut c: usize = 0;
        while c < columns.len()
            invariant
                c <= columns.len(),
                header@.len() == c + 1,
                header@[0]@ == "experiment_names"@,
                forall|x: int| 0 <= x < c ==> (#[trigger] header@[x + 1])@ == columns@[x]@,
            decreases columns.len() - c,
        {
            header.push(columns[c].clone());
            c += 1;
        }
        assert(names(header@).skip(1) =~= names(columns@));
        let mut lines: Vec<TableLine<Vec<Double>>> = Vec::new();
        let mut i: usize = 0;
        while i < self.experiments.len()
            invariant
                i <= self.experiments.len(),
                ms == self@,
                lines@.len() == i,
                forall|x: int| 0 <= x < i ==> is_line(#[trigger] lines@[x], ms[x], names(columns@)),
            decreases self.experiments.len() - i,
        {
            let experiment = &self.experiments[i];
            let mut cells: Vec<Option<Vec<Double>>> = Vec::new();
            let mut c: usize = 0;
            while c < columns.len()
                invariant
                    c <= columns.len(),
                    cells@.len() == c,
                    forall|x: int|
                        0 <= x < c ==> cell_model(#[trigger] cells@[x]) == cell_of(
                            models(experiment.value.configs@),
                            columns@[x]@,
                        ),
                decreases columns.len() - c,
            {
                cells.push(cell(&experiment.value.configs, &columns[c]));
                c += 1;
            }
            lines.push(TableLine { experiment: experiment.id.clone(), cells });
            i += 1;
        }
        CsvTable { header, lines }
    }
}

/// The fields of a line of a table of texts: the experiment, and for each
/// column the text it has there, `NaN` where it has none.
pub open spec fn line_fields(line: TableLine<String>) -> Seq<Seq<char>> {
    seq![line.experiment@] + Seq::new(
        line.cells@.len(),
        |c: int|
            match line.cells@[c] {
                Some(text) => text@,
                None => "NaN"@,
            },
    )
}

/// The records of a table of texts: the header, then the lines in their
/// order.
pub open spec fn table_fields(table: CsvTable<String>) -> Seq<Seq<Seq<char>>> {
    seq![names(table.header@)] + Seq::new(
        table.lines@.len(),
        |i: int| line_fields(table.lines@[i]),
    )
}

/// The fields of a line of a table of texts.
fn line_record(line: &TableLine<String>) -> (r: Vec<String>)
    ensures
        fields_of(r@) == line_fields(*line),
{
    let mut record: Vec<String> = Vec::new();
    record.push(line.experiment.clone());
    let mut c: usize = 0;
    while c < line.cells.len()
        invariant
            c <= line.cells.len(),
            record@.len() == c + 1,
            record@[0]@ == line.experiment@,
            forall|x: int|
                0 <= x < c ==> (#[trigger] record@[x + 1])@ == match line.cells@[x] {
                    Some(text) => text@,
                    None => "NaN"@,
                },
        decreases line.cells.len() - c,
    {
        let field = match &line.cells[c] {
            Some(text) => text.clone(),
            None => String::from_str("NaN"),
        };
        record.push(field);
        c += 1;
    }
    proof {
        let got = fields_of(record@);
        let want = line_fields(*line);
        assert(got.len() == want.len());
        assert forall|k: int| 0 <= k < got.len() implies got[k] == want[k] by {
            if k > 0 {
                assert(record@[k - 1 + 1]@ == want[k]);
            }
        }
        assert(got =~= want);
    }
    record
}

/// The records of a table of texts: its header, then its lines.
pub fn table_records(table: &CsvTable<String>) -> (r: Vec<Vec<String>>)
    ensures
        records_of(r@) == table_fields(*table),
{
    let mut records: Vec<Vec<String>> = Vec::new();
    let mut header: Vec<String> = Vec::new();
    let mut c: usize = 0;
    while c < table.header.len()
        invariant
            c <= table.header.len(),
            header@.len() == c,
            forall|x: int| 0 <= x < c ==> (#[trigger] header@[x])@ == table.header@[x]@,
        decreases table.header.len() - c,
    {
        header.push(table.header[c].clone());
        c += 1;
    }
    assert(fields_of(header@) =~= names(table.header@));
    records.push(header);
    let mut i: usize = 0;
    while i < table.lines.len()
        invariant
            i <= table.lines.len(),
            records@.len() == i + 1,
            fields_of(records@[0]@) == names(table.header@),
            forall|x: int|
                0 <= x < i ==> fields_of((#[trigger] records@[x + 1])@) == line_fields(
                    table.lines@[x],
                ),
        decreases table.lines.len() - i,
    {
        records.push(line_record(&table.lines[i]));
        i += 1;
    }
    proof {
        let got = records_of(records@);
        let want = table_fields(*table);
        assert(got.len() == want.len());
        assert forall|k: int| 0 <= k < got.len() implies got[k] == want[k] by {
            if k > 0 {
                assert(fields_of(records@[k - 1 + 1]@) == want[k]);
            }
        }
        assert(got =~= want);
    }
    records
}

/// Whether each line of the table has a cell for each column but the
/// first, which is the experiments'.
pub open spec fn is_rectangular(table: CsvTable<String>) -> bool {
    forall|i: int|
        0 <= i < table.lines@.len() ==> (#[trigger] table.lines@[i]).cells@.len() + 1
            == table.header@.len()
}

/// The CSV text of a table of texts, where it has one: that of its header
/// and then its lines, with `NaN` in each cell that has no text. A table
/// with a line of more or fewer cells than the header has columns has
/// none.
pub open spec fn table_csv(table: CsvTable<String>) -> Option<Seq<char>> {
    if is_rectangular(table) {
        text_of_written(Some(records_text(table_fields(table))))
    } else {
        None
    }
}

/// The records of a table have the same number of fields exactly when each
/// line has a cell for each column but the first.
pub proof fn rectangular_is_same_width(table: CsvTable<String>)
    ensures
        same_width(table_fields(table)) <==> is_rectangular(table),
        csv_of(table_fields(table)) == table_csv(table),
{
    let fields = table_fields(table);
    assert(fields[0].len() == table.header@.len());
    if same_width(fields) {
        assert forall|i: int| 0 <= i < table.lines@.len() implies (
        #[trigger] table.lines@[i]).cells@.len() + 1 == table.header@.len() by {
            assert(fields[i + 1].len() == fields[0].len());
            assert(fields[i + 1] == line_fields(table.lines@[i]));
        }
    }
    if is_rectangular(table) {
        assert forall|k: int| 0 <= k < fields.len() implies (#[trigger] fields[k]).len()
            == fields[0].len() by {
            if k > 0 {
                assert(fields[k] == line_fields(table.lines@[k - 1]));
                assert(table.lines@[k - 1].cells@.len() + 1 == table.header@.len());
            }
        }
    }
}

/// A table of texts as CSV text, where it has one.
pub fn table_text(table: &CsvTable<String>) -> (r: Option<String>)
    ensures
        r is Some <==> table_csv(*table) is Some,
        r matches Some(text) ==> table_csv(*table) == Some(text@),
{
    proof {
        rectangular_is_same_width(*table);
    }
    let records = table_records(table);
    csv_text(&records)
}

} // verus!
