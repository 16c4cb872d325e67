use crate::number::{double_of, Double};
use crate::outcome::SolveInformation;
use crate::query::{agreement, differ, Mode, SolutionCount};
use crate::store::{models, ConfigModel, ExperimentModel, ExperimentSingle, ExperimentStore, Filed};
use crate::text::{contains, occurs_in, remove_all, without};
use vstd::prelude::*;
use vstd::string::StringExecFns;

verus! {

/// One row of the relational mirror: one outcome of one configuration of
/// one experiment.
#[derive(Clone, Debug, PartialEq, Eq)]
pub struct DBRow {
    pub exp_id: String,
    pub config_id: String,
    pub result_type: String,
    pub measured_time: Double,
    pub nb_solutions: Option<u64>,
    pub machine_info: String,
    pub memory_limit: u64,
    pub seed: Option<Double>,
}

/// The name under which the mirror keeps a kind of outcome.
pub open spec fn kind_name(outcome: SolveInformation) -> Seq<char> {
    match outcome {
        SolveInformation::Success(_) => "SUCCESS"@,
        SolveInformation::Doubted(_) => "DOUBTED"@,
        SolveInformation::Timeout { .. } => "TIMEOUT"@,
        SolveInformation::Memout { .. } => "MEMOUT"@,
        SolveInformation::Crash { .. } => "CRASHED"@,
    }
}

/// Whether the row is that of the outcome, filed under the identifiers. The
/// measured time is the outer time of a success or a doubted run, the time
/// of the crash of a run out of memory or crashed, and the time limit of a
/// timeout, as a double.
pub open spec fn row_of(
    row: DBRow,
    exp_id: Seq<char>,
    config_id: Seq<char>,
    outcome: SolveInformation,
) -> bool {
    &&& row.exp_id@ == exp_id
    &&& row.config_id@ == config_id
    &&& row.result_type@ == kind_name(outcome)
    &&& match outcome {
        SolveInformation::Success(report) | SolveInformation::Doubted(report) => {
            &&& row.measured_time == report.total_sr_time
            &&& row.nb_solutions == Some(report.nb_solutions)
            &&& row.machine_info@ == report.machine_info@
            &&& row.memory_limit == report.memory_limit
            &&& row.seed == report.seed
        },
        SolveInformation::Timeout { seed, memory_limit, time_limit, machine_info } => {
            &&& double_of(row.measured_time.bits(), time_limit as nat)
            &&& row.nb_solutions is None
            &&& row.machine_info@ == machine_info@
            &&& row.memory_limit == memory_limit
            &&& row.seed == seed
        },
        SolveInformation::Memout { seed, memory_limit, machine_info, crash_time, .. } => {
            &&& row.measured_time == crash_time
            &&& row.nb_solutions is None
            &&& row.machine_info@ == machine_info@
            &&& row.memory_limit == memory_limit
            &&& row.seed == seed
        },
        SolveInformation::Crash { seed, memory_limit, machine_info, crash_time, .. } => {
            &&& row.measured_time == crash_time
            &&& row.nb_solutions is None
            &&& row.machine_info@ == machine_info@
            &&& row.memory_limit == memory_limit
            &&& row.seed == seed
        },
    }
}

impl DBRow {
    /// A row with the given columns.
    pub fn new(
        exp_id: String,
        config_id: String,
        result_type: String,
        measured_time: Double,
        nb_solutions: Option<u64>,
        machine_info: String,
        memory_limit: u64,
        seed: Option<Double>,
    ) -> (r: DBRow)
        ensures
            r == (DBRow {
                exp_id,
                config_id,
                result_type,
                measured_time,
                nb_solutions,
                machine_info,
                memory_limit,
                seed,
            }),
    {
        DBRow {
            exp_id,
            config_id,
            result_type,
            measured_time,
            nb_solutions,
            machine_info,
            memory_limit,
            seed,
        }
    }

    /// The row of an outcome.
    pub fn from_solve(exp_id: &str, config_id: &str, solve_information: &SolveInformation) -> (r:
        DBRow)
        ensures
            row_of(r, exp_id@, config_id@, *solve_information),
    {
        let (result_type, measured_time, nb_solutions, machine_info, memory_limit, seed) =
            match solve_information {
            SolveInformation::Success(report) => (
                "SUCCESS",
                report.total_sr_time,
                Some(report.nb_solutions),
                &report.machine_info,
                report.memory_limit,
                report.seed,
            ),
            SolveInformation::Doubted(report) => (
                "DOUBTED",
                report.total_sr_time,
                Some(report.nb_solutions),
                &report.machine_info,
                report.memory_limit,
                report.seed,
            ),
            SolveInformation::Timeout { seed, memory_limit, time_limit, machine_info } => (
                "TIMEOUT",
                Double::from_whole(*time_limit),
                None,
                machine_info,
                *memory_limit,
                *seed,
            ),
            SolveInformation::Memout { seed, memory_limit, machine_info, crash_time, .. } => (
                "MEMOUT",
                *crash_time,
                None,
                machine_info,
                *memory_limit,
                *seed,
            ),
            SolveInformation::Crash { seed, memory_limit, machine_info, crash_time, .. } => (
                "CRASHED",
                *crash_time,
                None,
                machine_info,
                *memory_limit,
                *seed,
            ),
        };
        DBRow::new(
            String::from_str(exp_id),
            String::from_str(config_id),
            String::from_str(result_type),
            measured_time,
            nb_solutions,
            machine_info.clone(),
            memory_limit,
            seed,
        )
    }
}

/// The kinds of row that a query on times tells apart.
#[derive(Clone, Copy, Debug, PartialEq, Eq)]
pub enum RowKind {
    /// A row named `SUCCESS`.
    Success,
    /// A row named `TIMEOUT`.
    Timeout,
    /// A row named `MEMOUT`.
    Memout,
    /// A row of any other name, as that of a crash or of a doubted run.
    Other,
}

/// The kind of a row with this name of outcome.
pub open spec fn kind_of(result_type: Seq<char>) -> RowKind {
    if result_type == "SUCCESS"@ {
        RowKind::Success
    } else if result_type == "TIMEOUT"@ {
        RowKind::Timeout
    } else if result_type == "MEMOUT"@ {
        RowKind::Memout
    } else {
        RowKind::Other
    }
}

/// The time and kind of the row that stands as the best so far.
#[derive(Clone, Copy, Debug, PartialEq, Eq)]
pub struct Candidate {
    pub time: Double,
    pub kind: RowKind,
}

/// The candidate after a row has challenged it. The first row stands
/// whatever its kind. A success displaces any candidate that is none, and a
/// success with a larger time. A timeout displaces a timeout with a smaller
/// time, a run out of memory one with a smaller time, and no other row
/// displaces anything.
pub open spec fn challenge(held: Option<Candidate>, row: DBRow) -> Option<Candidate> {
    let kind = kind_of(row.result_type@);
    let challenger = Some(Candidate { time: row.measured_time, kind });
    match held {
        None => challenger,
        Some(candidate) => match kind {
            RowKind::Success => if candidate.kind != RowKind::Success
                || row.measured_time.rank() < candidate.time.rank() {
                challenger
            } else {
                held
            },
            RowKind::Timeout | RowKind::Memout => if candidate.kind == kind
                && row.measured_time.rank() > candidate.time.rank() {
                challenger
            } else {
                held
            },
            RowKind::Other => held,
        },
    }
}

/// The candidate that stands after all the rows, taken in order.
pub open spec fn standing(rows: Seq<DBRow>) -> Option<Candidate>
    decreases rows.len(),
{
    if rows.len() == 0 {
        None
    } else {
        challenge(standing(rows.drop_last()), rows.last())
    }
}

/// What a query on the times of rows answers.
#[derive(Clone, Copy, Debug, PartialEq, Eq)]
pub enum MirrorAnswer {
    /// The smallest time of a success.
    MinSr(Double),
    /// The largest time of a timeout.
    MaxTimeout(Double),
    /// The largest time of a run out of memory.
    MaxMemout(Double),
    /// Nothing to report.
    Empty,
}

/// The answer that a standing candidate gives.
pub open spec fn reported(standing: Option<Candidate>) -> MirrorAnswer {
    match standing {
        None => MirrorAnswer::Empty,
        Some(candidate) => match candidate.kind {
            RowKind::Success => MirrorAnswer::MinSr(candidate.time),
            RowKind::Timeout => MirrorAnswer::MaxTimeout(candidate.time),
            RowKind::Memout => MirrorAnswer::MaxMemout(candidate.time),
            RowKind::Other => MirrorAnswer::Empty,
        },
    }
}

/// The kind of a row with this name of outcome.
pub fn classify(result_type: &String) -> (r: RowKind)
    ensures
        r == kind_of(result_type@),
{
    if *result_type == String::from_str("SUCCESS") {
        RowKind::Success
    } else if *result_type == String::from_str("TIMEOUT") {
        RowKind::Timeout
    } else if *result_type == String::from_str("MEMOUT") {
        RowKind::Memout
    } else {
        RowKind::Other
    }
}

/// The best time of the rows: the candidate that stands after each row, in
/// order, has challenged the one before.
pub fn check_time(rows: &Vec<DBRow>) -> (r: MirrorAnswer)
    ensures
        r == reported(standing(rows@)),
{
    let mut held: Option<Candidate> = None;
    let mut k: usize = 0;
    assert(rows@.take(0) =~= Seq::empty());
    while k < rows.len()
        invariant
            k <= rows.len(),
            held == standing(rows@.take(k as int)),
        decreases rows.len() - k,
    {
        assert(rows@.take(k + 1).drop_last() =~= rows@.take(k as int));
        let row = &rows[k];
        let kind = classify(&row.result_type);
        let challenger = Some(Candidate { time: row.measured_time, kind });
        held = match held {
            None => challenger,
            Some(candidate) => match kind {
                RowKind::Success => {
                    let displaced = match candidate.kind {
                        RowKind::Success => row.measured_time.lt(&candidate.time),
                        _ => true,
                    };
                    if displaced {
                        challenger
                    } else {
                        held
                    }
                },
                RowKind::Timeout => {
                    let displaced = match candidate.kind {
                        RowKind::Timeout => candidate.time.lt(&row.measured_time),
                        _ => false,
                    };
                    if displaced {
                        challenger
                    } else {
                        held
                    }
                },
                RowKind::Memout => {
                    let displaced = match candidate.kind {
                        RowKind::Memout => candidate.time.lt(&row.measured_time),
                        _ => false,
                    };
                    if displaced {
                        challenger
                    } else {
                        held
                    }
                },
                RowKind::Other => held,
            },
        };
        k += 1;
    }
    assert(rows@.take(rows@.len() as int) =~= rows@);
    match held {
        None => MirrorAnswer::Empty,
        Some(candidate) => match candidate.kind {
            RowKind::Success => MirrorAnswer::MinSr(candidate.time),
            RowKind::Timeout => MirrorAnswer::MaxTimeout(candidate.time),
            RowKind::Memout => MirrorAnswer::MaxMemout(candidate.time),
            RowKind::Other => MirrorAnswer::Empty,
        },
    }
}

impl MirrorAnswer {
    /// The label under which the answer is reported.
    pub fn label(&self) -> (r: String)
        ensures
            r@ == (match *self {
                MirrorAnswer::MinSr(_) => "min SR time"@,
                MirrorAnswer::MaxTimeout(_) => "max timeout"@,
                MirrorAnswer::MaxMemout(_) => "max memout time"@,
                MirrorAnswer::Empty => "EMPTY"@,
            }),
    {
        match self {
            MirrorAnswer::MinSr(_) => String::from_str("min SR time"),
            MirrorAnswer::MaxTimeout(_) => String::from_str("max timeout"),
            MirrorAnswer::MaxMemout(_) => String::from_str("max memout time"),
            MirrorAnswer::Empty => String::from_str("EMPTY"),
        }
    }
}

/// The numbers of solutions that the successes among the rows report, in
/// order.
pub open spec fn success_counts(rows: Seq<DBRow>) -> Seq<u64>
    decreases rows.len(),
{
    if rows.len() == 0 {
        seq![]
    } else {
        let earlier = success_counts(rows.drop_last());
        let row = rows.last();
        if kind_of(row.result_type@) == RowKind::Success && row.nb_solutions is Some {
            earlier.push(row.nb_solutions->0)
        } else {
            earlier
        }
    }
}

/// The number of solutions that the successes among the rows agree on.
pub open spec fn solution_count(rows: Seq<DBRow>) -> SolutionCount {
    agreement(success_counts(rows))
}

/// The number of solutions that the successes among the rows agree on.
pub fn check_sol(rows: &Vec<DBRow>) -> (r: SolutionCount)
    ensures
        r == solution_count(rows@),
{
    let mut first: Option<u64> = None;
    let mut support: u128 = 0;
    let mut conflict = false;
    let mut k: usize = 0;
    assert(rows@.take(0) =~= Seq::empty());
    while k < rows.len()
        invariant
            k <= rows.len(),
            support == success_counts(rows@.take(k as int)).len() <= k,
            first is None <==> support == 0,
            first is Some ==> first->0 == success_counts(rows@.take(k as int))[0],
            conflict <==> differ(success_counts(rows@.take(k as int))),
        decreases rows.len() - k,
    {
        assert(rows@.take(k + 1).drop_last() =~= rows@.take(k as int));
        let ghost counts = success_counts(rows@.take(k as int));
        let row = &rows[k];
        match classify(&row.result_type) {
            RowKind::Success => match row.nb_solutions {
                Some(nb) => {
                    match first {
                        None => {
                            first = Some(nb);
                        },
                        Some(expected) => {
                            if nb != expected {
                                conflict = true;
                            }
                        },
                    }
                    support += 1;
                    proof {
                        let grown = counts.push(nb);
                        assert(success_counts(rows@.take(k + 1)) == grown);
                        if counts.len() > 0 {
                            assert(grown[0] == counts[0]);
                            if nb != counts[0] {
                                assert(grown[counts.len() as int] != grown[0]);
                            }
                            if differ(counts) {
                                let i = choose|i: int|
                                    0 <= i < counts.len() && #[trigger] counts[i] != counts[0];
                                assert(grown[i] != grown[0]);
                            }
                            if differ(grown) && nb == counts[0] {
                                let i = choose|i: int|
                                    0 <= i < grown.len() && #[trigger] grown[i] != grown[0];
                                assert(counts[i] != counts[0]);
                            }
                        }
                    }
                },
                None => {},
            },
            _ => {},
        }
        k += 1;
    }
    assert(rows@.take(rows@.len() as int) =~= rows@);
    match first {
        None => SolutionCount::Empty,
        Some(nb_solutions) => if conflict {
            SolutionCount::Conflict
        } else {
            SolutionCount::Agreed { nb_solutions, support }
        },
    }
}

/// The ranks of the seeds of the successes among the rows, in order.
pub open spec fn success_seeds(rows: Seq<DBRow>) -> Seq<int>
    decreases rows.len(),
{
    if rows.len() == 0 {
        seq![]
    } else {
        let earlier = success_seeds(rows.drop_last());
        let row = rows.last();
        if kind_of(row.result_type@) == RowKind::Success && row.seed is Some {
            earlier.push(row.seed->0.rank())
        } else {
            earlier
        }
    }
}

/// The ranks of the numbers.
pub open spec fn ranks(numbers: Seq<Double>) -> Seq<int> {
    Seq::new(numbers.len(), |i: int| numbers[i].rank())
}

/// How many different seeds the successes among the rows have. Seeds are
/// different when their values are; a row without a seed adds none.
pub fn check_nb_successful(rows: &Vec<DBRow>) -> (r: usize)
    ensures
        r == success_seeds(rows@).to_set().len(),
{
    let mut seen: Vec<Double> = Vec::new();
    let mut k: usize = 0;
    assert(rows@.take(0) =~= Seq::empty());
    assert(ranks(seen@).to_set() =~= success_seeds(rows@.take(0)).to_set());
    while k < rows.len()
        invariant
            k <= rows.len(),
            seen.len() <= k,
            ranks(seen@).no_duplicates(),
            ranks(seen@).to_set() == success_seeds(rows@.take(k as int)).to_set(),
        decreases rows.len() - k,
    {
        assert(rows@.take(k + 1).drop_last() =~= rows@.take(k as int));
        let ghost seeds = success_seeds(rows@.take(k as int));
        let row = &rows[k];
        match classify(&row.result_type) {
            RowKind::Success => match row.seed {
                Some(seed) => {
                    let mut known = false;
                    let mut a: usize = 0;
                    while a < seen.len()
                        invariant
                            a <= seen.len(),
                            known <==> exists|b: int|
                                0 <= b < a && (#[trigger] ranks(seen@)[b]) == seed.rank(),
                        decreases seen.len() - a,
                    {
                        if seen[a].same_value(&seed) {
                            known = true;
                            assert(ranks(seen@)[a as int] == seed.rank());
                        }
                        a += 1;
                    }
                    let ghost before = ranks(seen@);
                    if !known {
                        seen.push(seed);
                        assert(ranks(seen@) =~= before.push(seed.rank()));
                        assert(!before.contains(seed.rank()));
                    } else {
                        assert(before.contains(seed.rank()));
                    }
                    proof {
                        before.lemma_push_to_set_commute(seed.rank());
                        seeds.lemma_push_to_set_commute(seed.rank());
                        if known {
                            assert(before.to_set().contains(seed.rank()));
                            assert(before.to_set().insert(seed.rank()) =~= before.to_set());
                        }
                    }
                },
                None => {},
            },
            _ => {},
        }
        k += 1;
    }
    assert(rows@.take(rows@.len() as int) =~= rows@);
    proof {
        ranks(seen@).unique_seq_to_set();
    }
    seen.len()
}

/// The texts of the strings, in order.
pub open spec fn texts(strings: Seq<String>) -> Seq<Seq<char>> {
    Seq::new(strings.len(), |i: int| strings[i]@)
}

/// An experiment identifier without what tells the members of its family
/// apart.
pub open spec fn naked_id(exp_id: Seq<char>) -> Seq<char> {
    without(without(without(without(exp_id, "rel_sub"@), "_complete"@), "_par_neg"@), "_par_pos"@)
}

/// The identifiers of the four experiments of the family of `exp_id`.
pub open spec fn family_ids(exp_id: Seq<char>) -> Seq<Seq<char>> {
    seq![
        "rel_sub"@ + naked_id(exp_id),
        "rel_sub"@ + "_complete"@ + naked_id(exp_id),
        "rel_sub"@ + "_par_neg"@ + naked_id(exp_id),
        "rel_sub"@ + "_par_pos"@ + naked_id(exp_id),
    ]
}

/// The identifiers of the experiments whose rows are pooled for the best
/// time of `exp_id`: its family where it belongs to one, else itself.
pub open spec fn pooled_ids(exp_id: Seq<char>) -> Seq<Seq<char>> {
    if occurs_in(exp_id, "rel_sub"@) {
        family_ids(exp_id)
    } else {
        seq![exp_id]
    }
}

/// The identifiers of the four experiments of the family of `exp_id`.
pub fn get_rsd_extra_exp_ids(exp_id: &str) -> (r: Vec<String>)
    ensures
        texts(r@) == family_ids(exp_id@),
{
    let naked = remove_all(exp_id, "rel_sub");
    let naked = remove_all(naked.as_str(), "_complete");
    let naked = remove_all(naked.as_str(), "_par_neg");
    let naked = remove_all(naked.as_str(), "_par_pos");
    let mut ids: Vec<String> = Vec::new();
    let mut plain = String::from_str("rel_sub");
    plain.append(naked.as_str());
    ids.push(plain);
    let mut complete = String::from_str("rel_sub");
    complete.append("_complete");
    complete.append(naked.as_str());
    ids.push(complete);
    let mut negative = String::from_str("rel_sub");
    negative.append("_par_neg");
    negative.append(naked.as_str());
    ids.push(negative);
    let mut positive = String::from_str("rel_sub");
    positive.append("_par_pos");
    positive.append(naked.as_str());
    ids.push(positive);
    assert(texts(ids@) =~= family_ids(exp_id@));
    ids
}

/// The identifiers of the experiments whose rows are pooled for the best
/// time of `exp_id`.
pub fn pooled_experiments(exp_id: &str) -> (r: Vec<String>)
    ensures
        texts(r@) == pooled_ids(exp_id@),
{
    if contains(exp_id, "rel_sub") {
        get_rsd_extra_exp_ids(exp_id)
    } else {
        let mut ids: Vec<String> = Vec::new();
        ids.push(String::from_str(exp_id));
        assert(texts(ids@) =~= seq![exp_id@]);
        ids
    }
}

/// The rows that a query needs from the mirror.
#[derive(Clone, Debug, PartialEq, Eq)]
pub enum Fetch {
    /// The successes of one experiment.
    Successes { exp_id: String },
    /// All the rows of one configuration of one experiment.
    Configuration { exp_id: String, config_id: String },
    /// All the rows of each of these experiments, one after the other.
    Experiments { exp_ids: Vec<String> },
}

/// Whether `fetch` is what the query needs. A query on the number of
/// solutions needs the successes of the experiment; an exact query on a
/// time the rows of the configuration; any other query on a time the rows
/// of the experiments that are pooled with the experiment.
pub open spec fn fetches(
    fetch: Fetch,
    exp_id: Seq<char>,
    config_id: Seq<char>,
    mode: Mode,
    exact: bool,
) -> bool {
    match mode {
        Mode::NbSolutions => fetch matches Fetch::Successes { exp_id: e } && e@ == exp_id,
        _ => if exact {
            fetch matches Fetch::Configuration { exp_id: e, config_id: c } && e@ == exp_id && c@
                == config_id
        } else {
            fetch matches Fetch::Experiments { exp_ids } && texts(exp_ids@) == pooled_ids(exp_id)
        },
    }
}

/// The rows that a query needs from the mirror.
pub fn plan_fetch(exp_id: &str, config_id: &str, mode: Mode, exact: bool) -> (r: Fetch)
    ensures
        fetches(r, exp_id@, config_id@, mode, exact),
{
    match mode {
        Mode::NbSolutions => Fetch::Successes { exp_id: String::from_str(exp_id) },
        _ => if exact {
            Fetch::Configuration {
                exp_id: String::from_str(exp_id),
                config_id: String::from_str(config_id),
            }
        } else {
            Fetch::Experiments { exp_ids: pooled_experiments(exp_id) }
        },
    }
}

/// What a query on the mirror reports.
#[derive(Clone, Copy, Debug, PartialEq, Eq)]
pub enum MirrorReport {
    /// The answer to a query on the number of solutions.
    Solutions(SolutionCount),
    /// The answer to a query on a time.
    Time(MirrorAnswer),
}

/// The report of a query, from the rows that were fetched for it.
pub open spec fn mirror_report(rows: Seq<DBRow>, mode: Mode) -> MirrorReport {
    match mode {
        Mode::NbSolutions => MirrorReport::Solutions(solution_count(rows)),
        _ => MirrorReport::Time(reported(standing(rows))),
    }
}

/// Answers a query on the mirror from the rows that were fetched for it.
pub fn check_mode(rows: &Vec<DBRow>, mode: Mode) -> (r: MirrorReport)
    ensures
        r == mirror_report(rows@, mode),
{
    match mode {
        Mode::NbSolutions => MirrorReport::Solutions(check_sol(rows)),
        _ => MirrorReport::Time(check_time(rows)),
    }
}

/// The row of the single outcome of a run record.
pub fn commit_row(experiment: &ExperimentSingle) -> (r: DBRow)
    requires
        experiment.config.solve_information@.len() == 1,
    ensures
        row_of(
            r,
            experiment.exp_id@,
            experiment.config_id@,
            experiment.config.solve_information@[0],
        ),
{
    DBRow::from_solve(
        experiment.exp_id.as_str(),
        experiment.config_id.as_str(),
        &experiment.config.solve_information[0],
    )
}

/// An outcome with the identifiers it is filed under.
pub struct Placed {
    pub exp_id: Seq<char>,
    pub config_id: Seq<char>,
    pub outcome: SolveInformation,
}

/// The outcomes of a configuration, in order.
pub open spec fn placed_in_config(exp_id: Seq<char>, config: Filed<ConfigModel>) -> Seq<Placed> {
    Seq::new(
        config.value.outcomes.len(),
        |k: int| Placed { exp_id, config_id: config.id, outcome: config.value.outcomes[k] },
    )
}

/// The outcomes of the configurations, configuration after configuration.
pub open spec fn placed_in_configs(exp_id: Seq<char>, configs: Seq<Filed<ConfigModel>>) -> Seq<
    Placed,
>
    decreases configs.len(),
{
    if configs.len() == 0 {
        seq![]
    } else {
        placed_in_configs(exp_id, configs.drop_last()) + placed_in_config(exp_id, configs.last())
    }
}

/// The outcomes of a store, experiment after experiment.
pub open spec fn placed(store: Seq<Filed<ExperimentModel>>) -> Seq<Placed>
    decreases store.len(),
{
    if store.len() == 0 {
        seq![]
    } else {
        placed(store.drop_last()) + placed_in_configs(store.last().id, store.last().value.configs)
    }
}

/// Whether the rows are those of the outcomes, one for one.
pub open spec fn rows_of(rows: Seq<DBRow>, outcomes: Seq<Placed>) -> bool {
    &&& rows.len() == outcomes.len()
    &&& forall|x: int|
        0 <= x < rows.len() ==> row_of(
            #[trigger] rows[x],
            outcomes[x].exp_id,
            outcomes[x].config_id,
            outcomes[x].outcome,
        )
}

/// The rows of all the outcomes of a store, experiment after experiment
/// and configuration after configuration.
pub fn store_rows(store: &ExperimentStore) -> (r: Vec<DBRow>)
    ensures
        rows_of(r@, placed(store@)),
{
    let ghost ms = store@;
    let mut rows: Vec<DBRow> = Vec::new();
    let mut i: usize = 0;
    assert(ms.take(0) =~= Seq::empty());
    while i < store.experiments.len()
        invariant
            i <= store.experiments.len(),
            ms == store@,
            rows_of(rows@, placed(ms.take(i as int))),
        decreases store.experiments.len() - i,
    {
        let experiment = &store.experiments[i];
        let ghost id = ms[i as int].id;
        let ghost configs = ms[i as int].value.configs;
        assert(configs == models(experiment.value.configs@));
        assert(id == experiment.id@);
        let ghost before = placed(ms.take(i as int));
        let mut j: usize = 0;
        assert(configs.take(0) =~= Seq::empty());
        assert(before + placed_in_configs(id, configs.take(0)) =~= before);
        while j < experiment.value.configs.len()
            invariant
                j <= experiment.value.configs.len(),
                id == experiment.id@,
                configs == models(experiment.value.configs@),
                rows_of(rows@, before + placed_in_configs(id, configs.take(j as int))),
            decreases experiment.value.configs.len() - j,
        {
            let config = &experiment.value.configs[j];
            let ghost so_far = before + placed_in_configs(id, configs.take(j as int));
            let ghost todo = placed_in_config(id, configs[j as int]);
            assert(config.value.solve_information@ == configs[j as int].value.outcomes);
            assert(config.id@ == configs[j as int].id);
            let mut k: usize = 0;
            assert(so_far + todo.take(0) =~= so_far);
            while k < config.value.solve_information.len()
                invariant
                    k <= config.value.solve_information.len(),
                    j < configs.len(),
                    id == experiment.id@,
                    config.id@ == configs[j as int].id,
                    config.value.solve_information@ == configs[j as int].value.outcomes,
                    todo == placed_in_config(id, configs[j as int]),
                    rows_of(rows@, so_far + todo.take(k as int)),
                decreases config.value.solve_information.len() - k,
            {
                let ghost done = so_far + todo.take(k as int);
                let outcome = &config.value.solve_information[k];
                rows.push(DBRow::from_solve(experiment.id.as_str(), config.id.as_str(), outcome));
                assert(so_far + todo.take(k + 1) =~= done.push(todo[k as int]));
                k += 1;
            }
            proof {
                assert(todo.take(todo.len() as int) =~= todo);
                assert(configs.take(j + 1).drop_last() =~= configs.take(j as int));
                assert(before + placed_in_configs(id, configs.take(j + 1)) =~= so_far + todo);
            }
            j += 1;
        }
        proof {
            assert(configs.take(configs.len() as int) =~= configs);
            assert(ms.take(i + 1).drop_last() =~= ms.take(i as int));
        }
        i += 1;
    }
    assert(ms.take(ms.len() as int) =~= ms);
    rows
}

} // verus!
