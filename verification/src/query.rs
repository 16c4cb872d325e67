use crate::best::{
    best_time, get_best_time, get_virtual_best, successes, virtual_best, BestExperimentResult,
};
use crate::doubts::all_outcomes;
use crate::number::Double;
use crate::outcome::{SolveInformation, SolveReport};
use crate::store::{
    find, models, position_of, position_of_is_first, ExperimentModel, ExperimentStore, Filed,
};
use vstd::prelude::*;
use vstd::string::StringExecFns;

verus! {

/// What a query asks for.
#[derive(Clone, Copy, Debug, PartialEq, Eq)]
pub enum Mode {
    /// The outer time of a run.
    SRTime,
    /// The time of the solver alone.
    SolverTime,
    /// The number of solutions.
    NbSolutions,
}

/// What a query on the store answers.
#[derive(Clone, Copy, Debug, PartialEq, Eq)]
pub enum Answer {
    /// The smallest outer time of a success.
    MinSr(Double),
    /// The smallest solver time of a success.
    MinSolver(Double),
    /// The number of solutions of a success.
    NbSols(u64),
    /// No success: the largest time limit of a timeout.
    MaxTimeout(u64),
    /// Nothing is known.
    Empty,
}

/// The part of a best that the mode asks for. A timeout answers only a
/// query on one configuration.
pub open spec fn chosen(best: BestExperimentResult, mode: Mode, exact: bool) -> Answer {
    match best {
        BestExperimentResult::Success { min_total_sr_time, min_total_solver_time,
            nb_solutions } => {
            match mode {
                Mode::SRTime => Answer::MinSr(min_total_sr_time),
                Mode::SolverTime => Answer::MinSolver(min_total_solver_time),
                Mode::NbSolutions => Answer::NbSols(nb_solutions),
            }
        },
        BestExperimentResult::Timeout { max_time_limit } => if exact {
            Answer::MaxTimeout(max_time_limit)
        } else {
            Answer::Empty
        },
        BestExperimentResult::Empty => Answer::Empty,
    }
}

/// The answer of the store. An exact query is on the configuration
/// `config_id` of the experiment; any other is on the best over all the
/// configurations of the experiment. An unknown experiment or configuration
/// answers `Empty`.
pub open spec fn answer(
    store: Seq<Filed<ExperimentModel>>,
    experiment_id: Seq<char>,
    config_id: Seq<char>,
    mode: Mode,
    exact: bool,
) -> Answer {
    let e = position_of(store, experiment_id);
    if e == store.len() {
        Answer::Empty
    } else if exact {
        let configs = store[e].value.configs;
        let c = position_of(configs, config_id);
        if c == configs.len() {
            Answer::Empty
        } else {
            chosen(best_time(configs[c].value.outcomes), mode, true)
        }
    } else {
        chosen(virtual_best(store[e].value.configs), mode, false)
    }
}

/// The part of a best that the mode asks for.
pub fn choose_answer(best: BestExperimentResult, mode: Mode, exact: bool) -> (r: Answer)
    ensures
        r == chosen(best, mode, exact),
{
    match best {
        BestExperimentResult::Success { min_total_sr_time, min_total_solver_time,
            nb_solutions } => {
            match mode {
                Mode::SRTime => Answer::MinSr(min_total_sr_time),
                Mode::SolverTime => Answer::MinSolver(min_total_solver_time),
                Mode::NbSolutions => Answer::NbSols(nb_solutions),
            }
        },
        BestExperimentResult::Timeout { max_time_limit } => if exact {
            Answer::MaxTimeout(max_time_limit)
        } else {
            Answer::Empty
        },
        BestExperimentResult::Empty => Answer::Empty,
    }
}

/// Answers a query on the store.
pub fn check_mode(
    store: &ExperimentStore,
    experiment_id: &str,
    config_id: &str,
    mode: Mode,
    exact: bool,
) -> (r: Answer)
    ensures
        r == answer(store@, experiment_id@, config_id@, mode, exact),
{
    proof {
        position_of_is_first(store@, experiment_id@);
    }
    match find(&store.experiments, experiment_id) {
        None => Answer::Empty,
        Some(e) => {
            let experiment = &store.experiments[e].value;
            assert(experiment@ == store@[e as int].value);
            if exact {
                proof {
                    position_of_is_first(experiment@.configs, config_id@);
                }
                match find(&experiment.configs, config_id) {
                    None => Answer::Empty,
                    Some(c) => {
                        assert(experiment.configs@[c as int].value@
                            == experiment@.configs[c as int].value);
                        choose_answer(get_best_time(&experiment.configs[c].value), mode, true)
                    },
                }
            } else {
                choose_answer(get_virtual_best(&experiment.configs), mode, false)
            }
        },
    }
}

impl Answer {
    /// The label under which the answer is reported.
    pub fn label(&self) -> (r: String)
        ensures
            r@ == (match *self {
                Answer::MinSr(_) => "MIN_SR"@,
                Answer::MinSolver(_) => "MIN_SOLVER"@,
                Answer::NbSols(_) => "NB_SOLS"@,
                Answer::MaxTimeout(_) => "MAX_TIMEOUT"@,
                Answer::Empty => "EMPTY"@,
            }),
    {
        match self {
            Answer::MinSr(_) => String::from_str("MIN_SR"),
            Answer::MinSolver(_) => String::from_str("MIN_SOLVER"),
            Answer::NbSols(_) => String::from_str("NB_SOLS"),
            Answer::MaxTimeout(_) => String::from_str("MAX_TIMEOUT"),
            Answer::Empty => String::from_str("EMPTY"),
        }
    }
}

/// What the successes of an experiment say of its number of solutions.
#[derive(Clone, Copy, Debug, PartialEq, Eq)]
pub enum SolutionCount {
    /// All the successes that report a number report this one; `support`
    /// is how many they are.
    Agreed { nb_solutions: u64, support: u128 },
    /// No success reports a number.
    Empty,
    /// Two successes report different numbers.
    Conflict,
}

/// Whether some number differs from the first.
pub open spec fn differ(counts: Seq<u64>) -> bool {
    exists|i: int| 0 <= i < counts.len() && #[trigger] counts[i] != counts[0]
}

/// What the reported numbers of solutions agree on.
pub open spec fn agreement(counts: Seq<u64>) -> SolutionCount {
    if counts.len() == 0 {
        SolutionCount::Empty
    } else if !differ(counts) {
        SolutionCount::Agreed { nb_solutions: counts[0], support: counts.len() as u128 }
    } else {
        SolutionCount::Conflict
    }
}

/// The numbers of solutions of the reports, in their order.
pub open spec fn numbers_of(reports: Seq<SolveReport>) -> Seq<u64> {
    Seq::new(reports.len(), |i: int| reports[i].nb_solutions)
}

/// What the store says of the number of solutions of an experiment: the
/// number that the successes of all its configurations agree on, with
/// their count. An unknown experiment, or one without a success, has none.
pub open spec fn store_solution_count(
    store: Seq<Filed<ExperimentModel>>,
    experiment_id: Seq<char>,
) -> SolutionCount {
    let e = position_of(store, experiment_id);
    if e == store.len() {
        SolutionCount::Empty
    } else {
        agreement(numbers_of(successes(all_outcomes(store[e].value.configs))))
    }
}

/// The number of solutions that the successes of an experiment agree on,
/// with their count.
pub fn solution_count(store: &ExperimentStore, experiment_id: &str) -> (r: SolutionCount)
    ensures
        r == store_solution_count(store@, experiment_id@),
{
    proof {
        position_of_is_first(store@, experiment_id@);
    }
    let e = match find(&store.experiments, experiment_id) {
        None => {
            return SolutionCount::Empty;
        },
        Some(e) => e,
    };
    let configs = &store.experiments[e].value.configs;
    let ghost ms = store@[e as int].value.configs;
    assert(ms == models(configs@));
    let mut first: Option<u64> = None;
    let mut support: u128 = 0;
    let mut conflict = false;
    let mut j: usize = 0;
    assert(ms.take(0) =~= Seq::empty());
    assert(numbers_of(successes(all_outcomes(ms.take(0)))) =~= Seq::<u64>::empty());
    while j < configs.len()
        invariant
            j <= configs.len(),
            ms == models(configs@),
            support == numbers_of(successes(all_outcomes(ms.take(j as int)))).len(),
            support <= j * 0xffff_ffff_ffff_ffff,
            first is None <==> support == 0,
            first is Some ==> first->0 == numbers_of(successes(all_outcomes(ms.take(j as int))))[0],
            conflict <==> differ(numbers_of(successes(all_outcomes(ms.take(j as int))))),
        decreases configs.len() - j,
    {
        let outcomes = &configs[j].value.solve_information;
        let ghost earlier = all_outcomes(ms.take(j as int));
        assert(outcomes@ == ms[j as int].value.outcomes);
        assert(earlier + outcomes@.take(0) =~= earlier);
        let mut k: usize = 0;
        while k < outcomes.len()
            invariant
                k <= outcomes.len(),
                j < configs.len(),
                support == numbers_of(successes(earlier + outcomes@.take(k as int))).len(),
                support <= j * 0xffff_ffff_ffff_ffff + k,
                first is None <==> support == 0,
                first is Some ==> first->0 == numbers_of(
                    successes(earlier + outcomes@.take(k as int)),
                )[0],
                conflict <==> differ(numbers_of(successes(earlier + outcomes@.take(k as int)))),
            decreases outcomes.len() - k,
        {
            let ghost seen = earlier + outcomes@.take(k as int);
            let ghost counts = numbers_of(successes(seen));
            proof {
                assert((earlier + outcomes@.take(k + 1)).drop_last() =~= seen);
                assert((earlier + outcomes@.take(k + 1)).last() == outcomes@[k as int]);
            }
            match &outcomes[k] {
                SolveInformation::Success(report) => {
                    let nb = report.nb_solutions;
                    match first {
                        None => {
                            first = Some(nb);
                        },
                        Some(expected) => {
                            if nb != expected {
                                conflict = true;
                            }
                        },
                    }
                    support += 1;
                    proof {
                        let grown = counts.push(nb);
                        assert(numbers_of(successes(seen).push(*report)) =~= grown);
                        if counts.len() > 0 {
                            assert(grown[0] == counts[0]);
                            if nb != counts[0] {
                                assert(grown[counts.len() as int] != grown[0]);
                            }
                            if differ(counts) {
                                let i = choose|i: int|
                                    0 <= i < counts.len() && #[trigger] counts[i] != counts[0];
                                assert(grown[i] != grown[0]);
                            }
                            if differ(grown) && nb == counts[0] {
                                let i = choose|i: int|
                                    0 <= i < grown.len() && #[trigger] grown[i] != grown[0];
                                assert(counts[i] != counts[0]);
                            }
                        }
                    }
                },
                _ => {},
            }
            k += 1;
        }
        proof {
            assert(outcomes@.take(outcomes@.len() as int) =~= outcomes@);
            assert(ms.take(j + 1).drop_last() =~= ms.take(j as int));
        }
        j += 1;
    }
    assert(ms.take(ms.len() as int) =~= ms);
    match first {
        None => SolutionCount::Empty,
        Some(nb_solutions) => if conflict {
            SolutionCount::Conflict
        } else {
            SolutionCount::Agreed { nb_solutions, support }
        },
    }
}

} // verus!
