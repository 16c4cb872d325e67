use crate::best::{
    best_ranks, best_time, first_least, first_least_is_first_and_least, largest, largest_is_largest,
    solver_ranks, sr_ranks, successes, time_limits, virtual_best, winning_bests,
    BestExperimentResult,
};
use crate::outcome::SolveInformation;
use crate::store::{ConfigModel, Filed};
use vstd::prelude::*;

verus! {

/// The reports of `successes` are those of the successes among the
/// outcomes.
pub proof fn successes_are_the_successes(outcomes: Seq<SolveInformation>)
    ensures
        forall|k: int|
            0 <= k < outcomes.len() && (#[trigger] outcomes[k]) is Success ==> successes(
                outcomes,
            ).contains(outcomes[k]->Success_0),
        forall|i: int|
            0 <= i < successes(outcomes).len() ==> outcomes.contains(
                SolveInformation::Success(#[trigger] successes(outcomes)[i]),
            ),
    decreases outcomes.len(),
{
    if outcomes.len() > 0 {
        let front = outcomes.drop_last();
        successes_are_the_successes(front);
        let won = successes(outcomes);
        assert forall|k: int| 0 <= k < outcomes.len()
            && (#[trigger] outcomes[k]) is Success implies won.contains(
            outcomes[k]->Success_0,
        ) by {
            if k < front.len() {
                assert(front[k] == outcomes[k]);
                let i = choose|i: int|
                    0 <= i < successes(front).len()
                        && successes(front)[i] == outcomes[k]->Success_0;
                assert(won[i] == outcomes[k]->Success_0);
            } else {
                assert(won[won.len() - 1] == outcomes[k]->Success_0);
            }
        }
        assert forall|i: int| 0 <= i < won.len() implies outcomes.contains(
            SolveInformation::Success(#[trigger] won[i]),
        ) by {
            if i < successes(front).len() {
                assert(won[i] == successes(front)[i]);
                let k = choose|k: int|
                    0 <= k < front.len()
                        && front[k] == SolveInformation::Success(successes(front)[i]);
                assert(outcomes[k] == front[k]);
            } else {
                assert(outcomes[outcomes.len() - 1] == SolveInformation::Success(won[i]));
            }
        }
    }
}

/// Whether some timeout among the outcomes had this time limit.
pub open spec fn timed_out_at(outcomes: Seq<SolveInformation>, limit: u64) -> bool {
    exists|k: int|
        0 <= k < outcomes.len() && (#[trigger] outcomes[k]) is Timeout
            && outcomes[k]->Timeout_time_limit == limit
}

/// The limits of `time_limits` are those of the timeouts among the
/// outcomes.
pub proof fn time_limits_are_the_limits(outcomes: Seq<SolveInformation>)
    ensures
        forall|k: int|
            0 <= k < outcomes.len() && (#[trigger] outcomes[k]) is Timeout ==> time_limits(
                outcomes,
            ).contains(outcomes[k]->Timeout_time_limit),
        forall|i: int|
            0 <= i < time_limits(outcomes).len() ==> timed_out_at(
                outcomes,
                #[trigger] time_limits(outcomes)[i],
            ),
    decreases outcomes.len(),
{
    if outcomes.len() > 0 {
        let front = outcomes.drop_last();
        time_limits_are_the_limits(front);
        let limits = time_limits(outcomes);
        assert forall|k: int| 0 <= k < outcomes.len()
            && (#[trigger] outcomes[k]) is Timeout implies limits.contains(
            outcomes[k]->Timeout_time_limit,
        ) by {
            if k < front.len() {
                assert(front[k] == outcomes[k]);
                let i = choose|i: int|
                    0 <= i < time_limits(front).len() && time_limits(front)[i]
                        == outcomes[k]->Timeout_time_limit;
                assert(limits[i] == outcomes[k]->Timeout_time_limit);
            } else {
                assert(limits[limits.len() - 1] == outcomes[k]->Timeout_time_limit);
            }
        }
        assert forall|i: int| 0 <= i < limits.len() implies timed_out_at(
            outcomes,
            #[trigger] limits[i],
        ) by {
            if i < time_limits(front).len() {
                assert(limits[i] == time_limits(front)[i]);
                assert(timed_out_at(front, time_limits(front)[i]));
                let k = choose|k: int|
                    0 <= k < front.len() && (#[trigger] front[k]) is Timeout
                        && front[k]->Timeout_time_limit == time_limits(front)[i];
                assert(outcomes[k] == front[k]);
            } else {
                assert(outcomes[outcomes.len() - 1] is Timeout);
            }
        }
    }
}

/// The best of a configuration is a success exactly when it has a success,
/// and then no success has a smaller outer time, nor a smaller solver time,
/// than it reports, and some success has each. Without a success it is a
/// timeout exactly when a run timed out, with the largest time limit of the
/// timeouts.
pub proof fn best_time_is_extreme(outcomes: Seq<SolveInformation>)
    ensures
        best_time(outcomes) is Success <==> exists|k: int|
            0 <= k < outcomes.len() && (#[trigger] outcomes[k]) is Success,
        best_time(outcomes) is Timeout <==> !(best_time(outcomes) is Success) && exists|k: int|
            0 <= k < outcomes.len() && (#[trigger] outcomes[k]) is Timeout,
        best_time(outcomes) matches BestExperimentResult::Success {
            min_total_sr_time,
            min_total_solver_time,
            ..
        } ==> {
            &&& forall|k: int|
                0 <= k < outcomes.len() && (#[trigger] outcomes[k]) is Success ==> {
                    &&& min_total_sr_time.rank() <= outcomes[k]->Success_0.total_sr_time.rank()
                    &&& min_total_solver_time.rank()
                        <= outcomes[k]->Success_0.total_solver_time.rank()
                }
            &&& exists|k: int|
                0 <= k < outcomes.len() && (#[trigger] outcomes[k]) is Success
                    && outcomes[k]->Success_0.total_sr_time == min_total_sr_time
            &&& exists|k: int|
                0 <= k < outcomes.len() && (#[trigger] outcomes[k]) is Success
                    && outcomes[k]->Success_0.total_solver_time == min_total_solver_time
        },
        best_time(outcomes) matches BestExperimentResult::Timeout { max_time_limit } ==> {
            &&& forall|k: int|
                0 <= k < outcomes.len() && (#[trigger] outcomes[k]) is Timeout
                    ==> outcomes[k]->Timeout_time_limit <= max_time_limit
            &&& exists|k: int|
                0 <= k < outcomes.len() && (#[trigger] outcomes[k]) is Timeout
                    && outcomes[k]->Timeout_time_limit == max_time_limit
        },
{
    let won = successes(outcomes);
    let limits = time_limits(outcomes);
    successes_are_the_successes(outcomes);
    time_limits_are_the_limits(outcomes);
    if won.len() > 0 {
        let sr = sr_ranks(won);
        let solver = solver_ranks(won);
        first_least_is_first_and_least(sr);
        first_least_is_first_and_least(solver);
        let a = first_least(sr);
        let b = first_least(solver);
        assert(outcomes.contains(SolveInformation::Success(won[a])));
        assert(outcomes.contains(SolveInformation::Success(won[b])));
        let ka = choose|k: int| 0 <= k < outcomes.len()
            && outcomes[k] == SolveInformation::Success(won[a]);
        let kb = choose|k: int| 0 <= k < outcomes.len()
            && outcomes[k] == SolveInformation::Success(won[b]);
        assert(outcomes[ka] is Success
            && outcomes[ka]->Success_0.total_sr_time == won[a].total_sr_time);
        assert(outcomes[kb] is Success && outcomes[kb]->Success_0.total_solver_time
            == won[b].total_solver_time);
        assert forall|k: int| 0 <= k < outcomes.len()
            && (#[trigger] outcomes[k]) is Success implies {
            &&& won[a].total_sr_time.rank() <= outcomes[k]->Success_0.total_sr_time.rank()
            &&& won[b].total_solver_time.rank() <= outcomes[k]->Success_0.total_solver_time.rank()
        } by {
            let report = outcomes[k]->Success_0;
            assert(won.contains(report));
            let i = choose|i: int| 0 <= i < won.len() && won[i] == report;
            assert(sr[a] <= sr[i]);
            assert(solver[b] <= solver[i]);
        }
    } else {
        assert forall|k: int| 0 <= k < outcomes.len()
            implies !((#[trigger] outcomes[k]) is Success) by {
            if outcomes[k] is Success {
                assert(won.contains(outcomes[k]->Success_0));
            }
        }
        if limits.len() > 0 {
            largest_is_largest(limits);
            let i = choose|i: int| 0 <= i < limits.len() && limits[i] == largest(limits);
            assert(timed_out_at(outcomes, limits[i]));
            let k = choose|k: int|
                0 <= k < outcomes.len() && (#[trigger] outcomes[k]) is Timeout
                    && outcomes[k]->Timeout_time_limit == limits[i];
            assert(outcomes[k] is Timeout);
            assert forall|k: int| 0 <= k < outcomes.len()
                && (#[trigger] outcomes[k]) is Timeout implies outcomes[k]->Timeout_time_limit
                <= largest(limits) by {
                assert(limits.contains(outcomes[k]->Timeout_time_limit));
                let i = choose|i: int| 0 <= i < limits.len()
                    && limits[i] == outcomes[k]->Timeout_time_limit;
                assert(limits[i] <= largest(limits));
            }
        } else {
            assert forall|k: int| 0 <= k < outcomes.len()
                implies !((#[trigger] outcomes[k]) is Timeout) by {
                if outcomes[k] is Timeout {
                    assert(limits.contains(outcomes[k]->Timeout_time_limit));
                }
            }
        }
    }
}

/// The bests of `winning_bests` are those of the configurations that have
/// a success.
pub proof fn winning_bests_are_the_bests(configs: Seq<Filed<ConfigModel>>)
    ensures
        forall|j: int|
            0 <= j < configs.len() && best_time((#[trigger] configs[j]).value.outcomes) is Success
                ==> winning_bests(configs).contains(best_time(configs[j].value.outcomes)),
        forall|i: int|
            0 <= i < winning_bests(configs).len()
                ==> (#[trigger] winning_bests(configs)[i]) is Success
                && exists|j: int|
                0 <= j < configs.len() && best_time((#[trigger] configs[j]).value.outcomes)
                    == winning_bests(configs)[i],
    decreases configs.len(),
{
    if configs.len() > 0 {
        let front = configs.drop_last();
        winning_bests_are_the_bests(front);
        let bests = winning_bests(configs);
        assert forall|j: int|
            0 <= j < configs.len() && best_time(
                (#[trigger] configs[j]).value.outcomes,
            ) is Success implies bests.contains(best_time(configs[j].value.outcomes)) by {
            let best = best_time(configs[j].value.outcomes);
            if j < front.len() {
                assert(front[j] == configs[j]);
                let i = choose|i: int|
                    0 <= i < winning_bests(front).len() && winning_bests(front)[i] == best;
                assert(bests[i] == best);
            } else {
                assert(bests[bests.len() - 1] == best);
            }
        }
        assert forall|i: int| 0 <= i < bests.len() implies (#[trigger] bests[i]) is Success
            && exists|j: int|
            0 <= j < configs.len() && best_time((#[trigger] configs[j]).value.outcomes)
                == bests[i] by {
            if i < winning_bests(front).len() {
                assert(bests[i] == winning_bests(front)[i]);
                let j = choose|j: int|
                    0 <= j < front.len() && best_time((#[trigger] front[j]).value.outcomes)
                        == winning_bests(front)[i];
                assert(configs[j] == front[j]);
            } else {
                assert(best_time(configs[configs.len() - 1].value.outcomes) == bests[i]);
            }
        }
    }
}

/// The best over the configurations is a success exactly when some
/// configuration has a success, whatever timed out; it is then the best of
/// one of the configurations, and no configuration with a success has a
/// smaller outer time. It is never a timeout.
pub proof fn virtual_best_is_success_only(configs: Seq<Filed<ConfigModel>>)
    ensures
        virtual_best(configs) is Success <==> exists|j: int|
            0 <= j < configs.len() && best_time((#[trigger] configs[j]).value.outcomes) is Success,
        !(virtual_best(configs) is Timeout),
        virtual_best(configs) is Success ==> {
            &&& exists|j: int|
                0 <= j < configs.len() && best_time((#[trigger] configs[j]).value.outcomes)
                    == virtual_best(configs)
            &&& forall|j: int|
                0 <= j < configs.len()
                    && best_time((#[trigger] configs[j]).value.outcomes) is Success
                    ==> virtual_best(configs)->min_total_sr_time.rank() <= best_time(
                    configs[j].value.outcomes,
                )->min_total_sr_time.rank()
        },
{
    let bests = winning_bests(configs);
    winning_bests_are_the_bests(configs);
    if bests.len() > 0 {
        let ranks = best_ranks(bests);
        first_least_is_first_and_least(ranks);
        let a = first_least(ranks);
        assert(bests[a] is Success);
        assert forall|j: int|
            0 <= j < configs.len() && best_time(
                (#[trigger] configs[j]).value.outcomes,
            ) is Success implies bests[a]->min_total_sr_time.rank() <= best_time(
            configs[j].value.outcomes,
        )->min_total_sr_time.rank() by {
            let best = best_time(configs[j].value.outcomes);
            assert(bests.contains(best));
            let i = choose|i: int| 0 <= i < bests.len() && bests[i] == best;
            assert(ranks[a] <= ranks[i]);
        }
    } else {
        assert forall|j: int| 0 <= j < configs.len() implies !(best_time(
            (#[trigger] configs[j]).value.outcomes,
        ) is Success) by {
            if best_time(configs[j].value.outcomes) is Success {
                assert(bests.contains(best_time(configs[j].value.outcomes)));
            }
        }
    }
}

} // verus!
