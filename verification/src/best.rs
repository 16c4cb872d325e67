use crate::number::Double;
use crate::outcome::{SolveInformation, SolveReport};
use crate::store::{models, ConfigModel, ConfigMultiple, Entry, Filed};
use vstd::prelude::*;

verus! {

/// The best that the runs of a configuration, or of a whole experiment,
/// have to show.
#[derive(Clone, Copy, Debug, PartialEq, Eq)]
pub enum BestExperimentResult {
    /// Some run succeeded: the smallest of each time, and the number of
    /// solutions.
    Success { min_total_sr_time: Double, min_total_solver_time: Double, nb_solutions: u64 },
    /// No run succeeded and some timed out: the longest time that was
    /// allowed.
    Timeout { max_time_limit: u64 },
    /// Neither.
    Empty,
}

/// The position of the first smallest of the values; 0 if there is none.
pub open spec fn first_least(values: Seq<int>) -> int
    decreases values.len(),
{
    if values.len() <= 1 {
        0
    } else {
        let earlier = first_least(values.drop_last());
        if values.last() < values[earlier] {
            values.len() - 1
        } else {
            earlier
        }
    }
}

/// The largest of the values; 0 if there is none.
pub open spec fn largest(values: Seq<u64>) -> u64
    decreases values.len(),
{
    if values.len() == 0 {
        0
    } else {
        let earlier = largest(values.drop_last());
        if values.last() > earlier {
            values.last()
        } else {
            earlier
        }
    }
}

/// `first_least` is a position of the values; no value is smaller than the
/// one it holds, and every earlier one is larger.
pub proof fn first_least_is_first_and_least(values: Seq<int>)
    requires
        values.len() > 0,
    ensures
        0 <= first_least(values) < values.len(),
        forall|i: int| 0 <= i < values.len()
            ==> values[first_least(values)] <= #[trigger] values[i],
        forall|i: int|
            0 <= i < first_least(values) ==> values[first_least(values)] < #[trigger] values[i],
    decreases values.len(),
{
    if values.len() > 1 {
        let front = values.drop_last();
        first_least_is_first_and_least(front);
        let at = first_least(values);
        assert forall|i: int| 0 <= i < values.len() implies values[at] <= #[trigger] values[i] by {
            if i < front.len() {
                assert(front[i] == values[i]);
            }
        }
        assert forall|i: int| 0 <= i < at implies values[at] < #[trigger] values[i] by {
            if i < front.len() {
                assert(front[i] == values[i]);
            }
        }
    }
}

/// `largest` is one of the values, and none is larger.
pub proof fn largest_is_largest(values: Seq<u64>)
    requires
        values.len() > 0,
    ensures
        exists|i: int| 0 <= i < values.len() && values[i] == largest(values),
        forall|i: int| 0 <= i < values.len() ==> #[trigger] values[i] <= largest(values),
    decreases values.len(),
{
    if values.len() > 1 {
        largest_is_largest(values.drop_last());
        let i = choose|i: int|
            0 <= i < values.drop_last().len() && values.drop_last()[i] == largest(
                values.drop_last(),
            );
        assert(values[i] == values.drop_last()[i]);
        assert forall|i: int| 0 <= i < values.len()
            implies #[trigger] values[i] <= largest(values) by {
            if i < values.len() - 1 {
                assert(values[i] == values.drop_last()[i]);
            }
        }
    } else {
        assert(largest(values.drop_last()) == 0);
        assert(values[0] == largest(values));
    }
}

/// The reports of the successes among the outcomes, in order.
pub open spec fn successes(outcomes: Seq<SolveInformation>) -> Seq<SolveReport>
    decreases outcomes.len(),
{
    if outcomes.len() == 0 {
        seq![]
    } else {
        let earlier = successes(outcomes.drop_last());
        match outcomes.last() {
            SolveInformation::Success(report) => earlier.push(report),
            _ => earlier,
        }
    }
}

/// The time limits of the timeouts among the outcomes, in order.
pub open spec fn time_limits(outcomes: Seq<SolveInformation>) -> Seq<u64>
    decreases outcomes.len(),
{
    if outcomes.len() == 0 {
        seq![]
    } else {
        let earlier = time_limits(outcomes.drop_last());
        match outcomes.last() {
            SolveInformation::Timeout { time_limit, .. } => earlier.push(time_limit),
            _ => earlier,
        }
    }
}

/// The ranks of the reports' outer times.
pub open spec fn sr_ranks(reports: Seq<SolveReport>) -> Seq<int> {
    Seq::new(reports.len(), |i: int| reports[i].total_sr_time.rank())
}

/// The ranks of the reports' solver times.
pub open spec fn solver_ranks(reports: Seq<SolveReport>) -> Seq<int> {
    Seq::new(reports.len(), |i: int| reports[i].total_solver_time.rank())
}

/// The best of a configuration's outcomes. With a success among them: the
/// smallest outer time and the smallest solver time of the successes, each
/// on its own, and the number of solutions of the first success. Else, with
/// a timeout among them: the largest time limit of the timeouts.
pub open spec fn best_time(outcomes: Seq<SolveInformation>) -> BestExperimentResult {
    let won = successes(outcomes);
    let limits = time_limits(outcomes);
    if won.len() > 0 {
        BestExperimentResult::Success {
            min_total_sr_time: won[first_least(sr_ranks(won))].total_sr_time,
            min_total_solver_time: won[first_least(solver_ranks(won))].total_solver_time,
            nb_solutions: won[0].nb_solutions,
        }
    } else if limits.len() > 0 {
        BestExperimentResult::Timeout { max_time_limit: largest(limits) }
    } else {
        BestExperimentResult::Empty
    }
}

/// The first smallest of one more value.
proof fn first_least_push(values: Seq<int>, x: int)
    ensures
        first_least(values.push(x)) == if values.len() == 0 {
            0
        } else if x < values[first_least(values)] {
            values.len() as int
        } else {
            first_least(values)
        },
{
    assert(values.push(x).drop_last() =~= values);
    if values.len() > 0 {
        first_least_is_first_and_least(values);
    }
}

/// The largest of one more value.
proof fn largest_push(values: Seq<u64>, x: u64)
    ensures
        largest(values.push(x)) == if x > largest(values) {
            x
        } else {
            largest(values)
        },
{
    assert(values.push(x).drop_last() =~= values);
}

/// The successes and the time limits among one more outcome.
proof fn outcomes_step(outcomes: Seq<SolveInformation>, k: int)
    requires
        0 <= k < outcomes.len(),
    ensures
        successes(outcomes.take(k + 1)) == match outcomes[k] {
            SolveInformation::Success(report) => successes(outcomes.take(k)).push(report),
            _ => successes(outcomes.take(k)),
        },
        time_limits(outcomes.take(k + 1)) == match outcomes[k] {
            SolveInformation::Timeout { time_limit, .. } => time_limits(outcomes.take(k)).push(
                time_limit,
            ),
            _ => time_limits(outcomes.take(k)),
        },
{
    assert(outcomes.take(k + 1).drop_last() =~= outcomes.take(k));
}

/// The best of a configuration's outcomes.
pub fn get_best_time(config: &ConfigMultiple) -> (r: BestExperimentResult)
    ensures
        r == best_time(config@.outcomes),
{
    let outcomes = &config.solve_information;
    let mut best: Option<(Double, Double, u64)> = None;
    let mut limit: Option<u64> = None;
    let mut k: usize = 0;
    assert(outcomes@.take(0) =~= Seq::empty());
    while k < outcomes.len()
        invariant
            k <= outcomes.len(),
            best is None <==> successes(outcomes@.take(k as int)).len() == 0,
            best matches Some(found) ==> ({
                let won = successes(outcomes@.take(k as int));
                &&& found.0 == won[first_least(sr_ranks(won))].total_sr_time
                &&& found.1 == won[first_least(solver_ranks(won))].total_solver_time
                &&& found.2 == won[0].nb_solutions
            }),
            limit is None <==> time_limits(outcomes@.take(k as int)).len() == 0,
            limit matches Some(longest)
                ==> longest == largest(time_limits(outcomes@.take(k as int))),
        decreases outcomes.len() - k,
    {
        proof {
            outcomes_step(outcomes@, k as int);
        }
        let ghost won = successes(outcomes@.take(k as int));
        let ghost limits = time_limits(outcomes@.take(k as int));
        match &outcomes[k] {
            SolveInformation::Success(report) => {
                proof {
                    first_least_push(sr_ranks(won), report.total_sr_time.rank());
                    first_least_push(solver_ranks(won), report.total_solver_time.rank());
                    assert(sr_ranks(won.push(*report)) =~= sr_ranks(won).push(
                        report.total_sr_time.rank(),
                    ));
                    assert(solver_ranks(won.push(*report)) =~= solver_ranks(won).push(
                        report.total_solver_time.rank(),
                    ));
                    if won.len() > 0 {
                        first_least_is_first_and_least(sr_ranks(won));
                        first_least_is_first_and_least(solver_ranks(won));
                    }
                }
                best = match best {
                    None => Some((report.total_sr_time, report.total_solver_time,
                        report.nb_solutions)),
                    Some((sr, solver, nb)) => {
                        let sr = if report.total_sr_time.lt(&sr) {
                            report.total_sr_time
                        } else {
                            sr
                        };
                        let solver = if report.total_solver_time.lt(&solver) {
                            report.total_solver_time
                        } else {
                            solver
                        };
                        Some((sr, solver, nb))
                    },
                };
            },
            SolveInformation::Timeout { time_limit, .. } => {
                proof {
                    largest_push(limits, *time_limit);
                }
                limit = match limit {
                    None => Some(*time_limit),
                    Some(longest) => if *time_limit > longest {
                        Some(*time_limit)
                    } else {
                        Some(longest)
                    },
                };
            },
            _ => {},
        }
        k += 1;
    }
    assert(outcomes@.take(outcomes@.len() as int) =~= outcomes@);
    match best {
        Some((sr, solver, nb)) => BestExperimentResult::Success {
            min_total_sr_time: sr,
            min_total_solver_time: solver,
            nb_solutions: nb,
        },
        None => match limit {
            Some(longest) => BestExperimentResult::Timeout { max_time_limit: longest },
            None => BestExperimentResult::Empty,
        },
    }
}

/// The bests of the configurations that have a success, in order.
pub open spec fn winning_bests(configs: Seq<Filed<ConfigModel>>) -> Seq<BestExperimentResult>
    decreases configs.len(),
{
    if configs.len() == 0 {
        seq![]
    } else {
        let earlier = winning_bests(configs.drop_last());
        let best = best_time(configs.last().value.outcomes);
        if best is Success {
            earlier.push(best)
        } else {
            earlier
        }
    }
}

/// The ranks of the smallest outer times of the bests.
pub open spec fn best_ranks(bests: Seq<BestExperimentResult>) -> Seq<int> {
    Seq::new(bests.len(), |i: int| bests[i]->min_total_sr_time.rank())
}

/// The best over the configurations of an experiment: the best of the
/// configuration whose smallest outer time is smallest, of the first such
/// configuration where several share it. Only configurations with a success
/// count: without one there is no best, whatever timed out.
pub open spec fn virtual_best(configs: Seq<Filed<ConfigModel>>) -> BestExperimentResult {
    let bests = winning_bests(configs);
    if bests.len() > 0 {
        bests[first_least(best_ranks(bests))]
    } else {
        BestExperimentResult::Empty
    }
}

/// The bests with a success among one more configuration.
proof fn winning_bests_step(configs: Seq<Filed<ConfigModel>>, j: int)
    requires
        0 <= j < configs.len(),
    ensures
        winning_bests(configs.take(j + 1)) == if best_time(configs[j].value.outcomes) is Success {
            winning_bests(configs.take(j)).push(best_time(configs[j].value.outcomes))
        } else {
            winning_bests(configs.take(j))
        },
{
    assert(configs.take(j + 1).drop_last() =~= configs.take(j));
}

/// The best over the configurations of an experiment.
pub fn get_virtual_best(configs: &Vec<Entry<ConfigMultiple>>) -> (r: BestExperimentResult)
    ensures
        r == virtual_best(models(configs@)),
{
    let ghost ms = models(configs@);
    let mut best = BestExperimentResult::Empty;
    let mut j: usize = 0;
    assert(ms.take(0) =~= Seq::empty());
    while j < configs.len()
        invariant
            j <= configs.len(),
            ms == models(configs@),
            best == virtual_best(ms.take(j as int)),
            forall|i: int|
                0 <= i < winning_bests(ms.take(j as int)).len() ==> (#[trigger] winning_bests(
                    ms.take(j as int),
                )[i]) is Success,
        decreases configs.len() - j,
    {
        let ghost bests = winning_bests(ms.take(j as int));
        proof {
            winning_bests_step(ms, j as int);
            assert(ms[j as int].value == configs@[j as int].value@);
        }
        let candidate = get_best_time(&configs[j].value);
        match candidate {
            BestExperimentResult::Success { min_total_sr_time, .. } => {
                proof {
                    first_least_push(best_ranks(bests), min_total_sr_time.rank());
                    assert(best_ranks(bests.push(candidate)) =~= best_ranks(bests).push(
                        min_total_sr_time.rank(),
                    ));
                    if bests.len() > 0 {
                        first_least_is_first_and_least(best_ranks(bests));
                        assert(bests[first_least(best_ranks(bests))] is Success);
                    }
                }
                match best {
                    BestExperimentResult::Success { min_total_sr_time: least, .. } => {
                        if min_total_sr_time.lt(&least) {
                            best = candidate;
                        }
                    },
                    _ => {
                        best = candidate;
                    },
                }
            },
            _ => {},
        }
        j += 1;
    }
    assert(ms.take(ms.len() as int) =~= ms);
    best
}

} // verus!
