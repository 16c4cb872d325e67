use crate::best::successes;
use crate::number::Double;
use crate::outcome::{SolveInformation, SolveReport};
use crate::sort::{in_order, FSort};
use crate::store::{ConfigMultiple, Entry, ExperimentStore};
use vstd::prelude::*;

verus! {

/// What the successes of one configuration have to show in a plot. The
/// three lists are in order, each on its own.
#[derive(Clone, Debug, PartialEq, Eq)]
pub struct PlotSummary {
    /// How many runs succeeded.
    pub nb_data_points: usize,
    /// The solver times of the successes.
    pub solver_times: Vec<Double>,
    /// The outer times of the successes.
    pub sr_times: Vec<Double>,
    /// The numbers of nodes of the successes, 0 where none was reported.
    pub solver_nodes: Vec<u64>,
    /// How many levels the best run went through.
    pub nb_levels: usize,
    /// The first number of solutions that is not 0, or 0.
    pub nb_solutions: u64,
    /// The position, among the outcomes of the configuration, of the best
    /// run: the last success with the smallest outer time.
    pub best_run: Option<usize>,
}

/// The outer times of the reports, in their order.
pub open spec fn sr_times_of(reports: Seq<SolveReport>) -> Seq<Double> {
    Seq::new(reports.len(), |i: int| reports[i].total_sr_time)
}

/// The solver times of the reports, in their order.
pub open spec fn solver_times_of(reports: Seq<SolveReport>) -> Seq<Double> {
    Seq::new(reports.len(), |i: int| reports[i].total_solver_time)
}

/// The numbers of nodes of the reports, in their order; 0 where a report
/// has none.
pub open spec fn nodes_of(reports: Seq<SolveReport>) -> Seq<u64> {
    Seq::new(
        reports.len(),
        |i: int|
            match reports[i].total_nodes {
                Some(nodes) => nodes,
                None => 0,
            },
    )
}

/// The first number of solutions of the reports that is not 0; 0 if there
/// is none.
pub open spec fn first_nonzero(reports: Seq<SolveReport>) -> u64
    decreases reports.len(),
{
    if reports.len() == 0 {
        0
    } else if first_nonzero(reports.drop_last()) != 0 {
        first_nonzero(reports.drop_last())
    } else {
        reports.last().nb_solutions
    }
}

/// Whether the last of the outcomes is a success whose outer time is not
/// larger than that of the success at `held`, if there is one.
pub open spec fn overtakes(outcomes: Seq<SolveInformation>, held: Option<int>) -> bool {
    &&& outcomes.last() is Success
    &&& held matches Some(at) ==> outcomes.last()->Success_0.total_sr_time.rank()
        <= outcomes[at]->Success_0.total_sr_time.rank()
}

/// The position of the best run among the outcomes: the last success with
/// the smallest outer time.
pub open spec fn best_run(outcomes: Seq<SolveInformation>) -> Option<int>
    decreases outcomes.len(),
{
    if outcomes.len() == 0 {
        None
    } else if overtakes(outcomes, best_run(outcomes.drop_last())) {
        Some(outcomes.len() - 1)
    } else {
        best_run(outcomes.drop_last())
    }
}

/// Whether the last of the outcomes is a success that is the best run so
/// far: no earlier success has a smaller outer time.
pub open spec fn takes_over(outcomes: Seq<SolveInformation>) -> bool {
    outcomes.len() > 0 && overtakes(outcomes, best_run(outcomes.drop_last()))
}

/// The names of the levels, in their order.
pub open spec fn level_names(levels: Seq<(String, Double)>) -> Seq<Seq<char>> {
    Seq::new(levels.len(), |i: int| levels[i].0@)
}

/// The number of levels of the best run: that of the last run that was
/// best when it came and reports the solver times of its levels, where it
/// counts the different names of levels; 0 if there is no such run.
pub open spec fn level_count(outcomes: Seq<SolveInformation>) -> nat
    decreases outcomes.len(),
{
    if outcomes.len() == 0 {
        0
    } else if takes_over(outcomes) && outcomes.last()->Success_0.level_info.solver_time is Some {
        level_names(outcomes.last()->Success_0.level_info.solver_time->0@).to_set().len()
    } else {
        level_count(outcomes.drop_last())
    }
}

/// Whether the summary is that of the outcomes.
pub open spec fn summarizes(summary: PlotSummary, outcomes: Seq<SolveInformation>) -> bool {
    let won = successes(outcomes);
    &&& summary.nb_data_points == won.len()
    &&& summary.sr_times@ == in_order(sr_times_of(won))
    &&& summary.solver_times@ == in_order(solver_times_of(won))
    &&& summary.solver_nodes@ == in_order(nodes_of(won))
    &&& summary.nb_solutions == first_nonzero(won)
    &&& summary.nb_levels == level_count(outcomes)
    &&& match summary.best_run {
        Some(at) => best_run(outcomes) == Some(at as int),
        None => best_run(outcomes) is None,
    }
}

/// How many different names the levels have.
pub fn count_levels(levels: &Vec<(String, Double)>) -> (r: usize)
    ensures
        r == level_names(levels@).to_set().len(),
{
    let mut seen: Vec<usize> = Vec::new();
    let ghost mut names = Seq::<Seq<char>>::empty();
    let mut k: usize = 0;
    assert(level_names(levels@).take(0) =~= names);
    while k < levels.len()
        invariant
            k <= levels.len(),
            seen.len() == names.len() <= k,
            names.no_duplicates(),
            names.to_set() == level_names(levels@).take(k as int).to_set(),
            forall|a: int|
                0 <= a < seen.len() ==> (#[trigger] seen@[a]) < k && levels@[seen@[a] as int].0@
                    == names[a],
        decreases levels.len() - k,
    {
        let ghost all = level_names(levels@);
        let ghost name = levels@[k as int].0@;
        assert(all.take(k + 1) =~= all.take(k as int).push(name));
        let mut known = false;
        let mut a: usize = 0;
        while a < seen.len()
            invariant
                a <= seen.len(),
                k < levels.len(),
                seen.len() == names.len(),
                name == levels@[k as int].0@,
                forall|a: int|
                    0 <= a < seen.len() ==> (#[trigger] seen@[a]) < k && levels@[seen@[a] as int].0@
                        == names[a],
                known <==> exists|b: int| 0 <= b < a && names[b] == name,
            decreases seen.len() - a,
        {
            assert(seen@[a as int] < k);
            if levels[seen[a]].0 == levels[k].0 {
                known = true;
                assert(names[a as int] == name);
            }
            a += 1;
        }
        proof {
            all.take(k as int).lemma_push_to_set_commute(name);
            names.lemma_push_to_set_commute(name);
            if known {
                assert(names.to_set().contains(name));
                assert(names.to_set().insert(name) =~= names.to_set());
            }
        }
        if !known {
            let ghost held = seen@;
            seen.push(k);
            proof {
                assert(!names.contains(name));
                names = names.push(name);
                assert forall|a: int| 0 <= a < seen.len() implies (#[trigger] seen@[a]) < k + 1
                    && levels@[seen@[a] as int].0@ == names[a] by {
                    if a < held.len() {
                        assert(held[a] < k);
                    }
                }
            }
        } else {
            assert forall|a: int| 0 <= a < seen.len() implies (#[trigger] seen@[a]) < k + 1
                && levels@[seen@[a] as int].0@ == names[a] by {
                assert(seen@[a] < k);
            }
        }
        k += 1;
    }
    proof {
        assert(level_names(levels@).take(levels@.len() as int) =~= level_names(levels@));
        names.unique_seq_to_set();
    }
    seen.len()
}

/// What the successes of a configuration have to show in a plot.
pub fn summarize(config: &ConfigMultiple) -> (r: PlotSummary)
    ensures
        summarizes(r, config@.outcomes),
{
    let outcomes = &config.solve_information;
    let mut sr_times: Vec<Double> = Vec::new();
    let mut solver_times: Vec<Double> = Vec::new();
    let mut solver_nodes: Vec<u64> = Vec::new();
    let mut nb_solutions: u64 = 0;
    let mut nb_levels: usize = 0;
    let mut best: Option<usize> = None;
    let mut k: usize = 0;
    assert(outcomes@.take(0) =~= Seq::empty());
    assert(sr_times@ =~= sr_times_of(successes(outcomes@.take(0))));
    assert(solver_times@ =~= solver_times_of(successes(outcomes@.take(0))));
    assert(solver_nodes@ =~= nodes_of(successes(outcomes@.take(0))));
    while k < outcomes.len()
        invariant
            k <= outcomes.len(),
            sr_times@ == sr_times_of(successes(outcomes@.take(k as int))),
            solver_times@ == solver_times_of(successes(outcomes@.take(k as int))),
            solver_nodes@ == nodes_of(successes(outcomes@.take(k as int))),
            sr_times@.len() <= k,
            nb_solutions == first_nonzero(successes(outcomes@.take(k as int))),
            nb_levels == level_count(outcomes@.take(k as int)),
            match best {
                Some(at) => best_run(outcomes@.take(k as int)) == Some(at as int) && at < k
                    && outcomes@[at as int] is Success,
                None => best_run(outcomes@.take(k as int)) is None,
            },
        decreases outcomes.len() - k,
    {
        let ghost seen = outcomes@.take(k as int);
        let ghost now = outcomes@.take(k + 1);
        let ghost won = successes(seen);
        proof {
            assert(now.drop_last() =~= seen);
            assert(now.last() == outcomes@[k as int]);
            if best is Some {
                assert(now[best->0 as int] == outcomes@[best->0 as int]);
            }
        }
        match &outcomes[k] {
            SolveInformation::Success(report) => {
                proof {
                    assert(successes(now) == won.push(*report));
                    assert(won.push(*report).drop_last() =~= won);
                    assert(sr_times_of(won.push(*report)) =~= sr_times_of(won).push(
                        report.total_sr_time,
                    ));
                    assert(solver_times_of(won.push(*report)) =~= solver_times_of(won).push(
                        report.total_solver_time,
                    ));
                    assert(nodes_of(won.push(*report)) =~= nodes_of(won).push(
                        match report.total_nodes {
                            Some(nodes) => nodes,
                            None => 0,
                        },
                    ));
                }
                sr_times.push(report.total_sr_time);
                solver_times.push(report.total_solver_time);
                solver_nodes.push(
                    match report.total_nodes {
                        Some(nodes) => nodes,
                        None => 0,
                    },
                );
                if nb_solutions == 0 {
                    nb_solutions = report.nb_solutions;
                }
                let takes = match best {
                    None => true,
                    Some(at) => match &outcomes[at] {
                        SolveInformation::Success(held) =>
                            !held.total_sr_time.lt(&report.total_sr_time),
                        _ => true,
                    },
                };
                assert(takes == takes_over(now));
                if takes {
                    best = Some(k);
                    match &report.level_info.solver_time {
                        Some(levels) => {
                            nb_levels = count_levels(levels);
                        },
                        None => {},
                    }
                }
            },
            _ => {
                assert(successes(now) == won);
            },
        }
        k += 1;
    }
    assert(outcomes@.take(outcomes@.len() as int) =~= outcomes@);
    let nb_data_points = sr_times.len();
    sr_times.f_sort();
    solver_times.f_sort();
    solver_nodes.f_sort();
    PlotSummary {
        nb_data_points,
        solver_times,
        sr_times,
        solver_nodes,
        nb_levels,
        nb_solutions,
        best_run: best,
    }
}

/// Whether the summaries are those of the configurations, one for one and
/// under the same identifiers.
pub open spec fn summarize_all(
    summaries: Seq<Entry<PlotSummary>>,
    configs: Seq<Entry<ConfigMultiple>>,
) -> bool {
    &&& summaries.len() == configs.len()
    &&& forall|j: int|
        0 <= j < configs.len() ==> (#[trigger] summaries[j]).id@ == configs[j].id@ && summarizes(
            summaries[j].value,
            configs[j].value@.outcomes,
        )
}

/// The summaries of all the configurations of a store, experiment by
/// experiment, under the identifiers of the store.
pub fn convert_store_for_plot(store: &ExperimentStore) -> (r: Vec<Entry<Vec<Entry<PlotSummary>>>>)
    ensures
        r@.len() == store.experiments@.len(),
        forall|i: int|
            0 <= i < r@.len() ==> (#[trigger] r@[i]).id@ == store.experiments@[i].id@
                && summarize_all(r@[i].value@, store.experiments@[i].value.configs@),
{
    let mut view: Vec<Entry<Vec<Entry<PlotSummary>>>> = Vec::new();
    let mut i: usize = 0;
    while i < store.experiments.len()
        invariant
            i <= store.experiments.len(),
            view@.len() == i,
            forall|x: int|
                0 <= x < i ==> (#[trigger] view@[x]).id@ == store.experiments@[x].id@
                    && summarize_all(view@[x].value@, store.experiments@[x].value.configs@),
        decreases store.experiments.len() - i,
    {
        let experiment = &store.experiments[i];
        let mut inner: Vec<Entry<PlotSummary>> = Vec::new();
        let mut j: usize = 0;
        while j < experiment.value.configs.len()
            invariant
                j <= experiment.value.configs.len(),
                inner@.len() == j,
                forall|x: int|
                    0 <= x < j ==> (#[trigger] inner@[x]).id@ == experiment.value.configs@[x].id@
                        && summarizes(inner@[x].value,
                            experiment.value.configs@[x].value@.outcomes),
            decreases experiment.value.configs.len() - j,
        {
            let config = &experiment.value.configs[j];
            inner.push(Entry { id: config.id.clone(), value: summarize(&config.value) });
            j += 1;
        }
        view.push(Entry { id: experiment.id.clone(), value: inner });
        i += 1;
    }
    view
}

} // verus!
