use crate::doubts_laws::fix_keeps_well_formed;
use crate::outcome::SolveInformation;
use crate::store::{
    models, well_formed, ConfigModel, ConfigMultiple, Entry, ExperimentModel, ExperimentStore,
    Filed,
};
use vstd::prelude::*;

verus! {

/// How many of the outcomes vote for `n` solutions.
pub open spec fn votes_for(outcomes: Seq<SolveInformation>, n: u64) -> nat
    decreases outcomes.len(),
{
    if outcomes.len() == 0 {
        0
    } else {
        let earlier = votes_for(outcomes.drop_last(), n);
        if outcomes.last().votes() && outcomes.last().reported() == n {
            earlier + 1
        } else {
            earlier
        }
    }
}

/// How many outcomes of all the configurations vote for `n` solutions.
pub open spec fn tally(configs: Seq<Filed<ConfigModel>>, n: u64) -> nat
    decreases configs.len(),
{
    if configs.len() == 0 {
        0
    } else {
        tally(configs.drop_last(), n) + votes_for(configs.last().value.outcomes, n)
    }
}

/// At least two different numbers of solutions have votes.
pub open spec fn contested(configs: Seq<Filed<ConfigModel>>) -> bool {
    exists|a: u64, b: u64| a != b && #[trigger] tally(configs, a) > 0
        && #[trigger] tally(configs, b) > 0
}

/// `w` has votes, and more of them than any other number of solutions.
pub open spec fn wins(configs: Seq<Filed<ConfigModel>>, w: u64) -> bool {
    &&& tally(configs, w) > 0
    &&& forall|n: u64| n != w ==> #[trigger] tally(configs, n) < tally(configs, w)
}

/// What the votes of an experiment decide.
#[derive(Clone, Copy, Debug, PartialEq, Eq)]
pub enum Ruling {
    /// Fewer than two numbers of solutions have votes: nothing to settle.
    Unquestioned,
    /// Several numbers of solutions share the most votes: nothing is
    /// settled.
    Tied,
    /// This number of solutions has the most votes, and is trusted.
    Trusted(u64),
}

/// The ruling on an experiment with these configurations.
pub open spec fn ruling(configs: Seq<Filed<ConfigModel>>) -> Ruling {
    if !contested(configs) {
        Ruling::Unquestioned
    } else if exists|w: u64| wins(configs, w) {
        Ruling::Trusted(choose|w: u64| wins(configs, w))
    } else {
        Ruling::Tied
    }
}

/// At most one number of solutions wins.
pub proof fn winner_is_unique(configs: Seq<Filed<ConfigModel>>, a: u64, b: u64)
    requires
        wins(configs, a),
        wins(configs, b),
    ensures
        a == b,
{
    if a != b {
        assert(tally(configs, a) < tally(configs, b));
        assert(tally(configs, b) < tally(configs, a));
    }
}

/// An outcome after `winner` became the trusted number of solutions: a
/// success that reported another number is a crash, a doubted run that
/// reported the winner is a success, and any other outcome is as it was.
pub open spec fn settled(outcome: SolveInformation, winner: u64) -> SolveInformation {
    match outcome {
        SolveInformation::Success(report) => if report.nb_solutions != winner {
            SolveInformation::Crash {
                seed: report.seed,
                memory_limit: report.memory_limit,
                time_limit: Some(report.time_limit),
                machine_info: report.machine_info,
                crash_time: report.total_sr_time,
            }
        } else {
            outcome
        },
        SolveInformation::Doubted(report) => if report.nb_solutions == winner {
            SolveInformation::Success(report)
        } else {
            outcome
        },
        _ => outcome,
    }
}

/// The outcomes after each was settled under `winner`.
pub open spec fn all_settled(outcomes: Seq<SolveInformation>,
    winner: u64) -> Seq<SolveInformation> {
    Seq::new(outcomes.len(), |k: int| settled(outcomes[k], winner))
}

/// An outcome after the ruling on its experiment.
pub open spec fn ruled(outcome: SolveInformation, ruling: Ruling) -> SolveInformation {
    match ruling {
        Ruling::Trusted(winner) => settled(outcome, winner),
        _ => outcome,
    }
}

/// The configurations of an experiment after the ruling on it.
pub open spec fn fix_configs(configs: Seq<Filed<ConfigModel>>, ruling: Ruling) -> Seq<
    Filed<ConfigModel>,
> {
    Seq::new(
        configs.len(),
        |j: int|
            Filed {
                id: configs[j].id,
                value: ConfigModel {
                    settings: configs[j].value.settings,
                    outcomes: Seq::new(
                        configs[j].value.outcomes.len(),
                        |k: int| ruled(configs[j].value.outcomes[k], ruling),
                    ),
                },
            },
    )
}

/// An experiment after the ruling of its own votes.
pub open spec fn fix_experiment(experiment: ExperimentModel) -> ExperimentModel {
    ExperimentModel {
        configs: fix_configs(experiment.configs, ruling(experiment.configs)),
        ..experiment
    }
}

/// The store after every experiment was put under the ruling of its own
/// votes.
pub open spec fn fix(store: Seq<Filed<ExperimentModel>>) -> Seq<Filed<ExperimentModel>> {
    Seq::new(
        store.len(),
        |i: int| Filed { id: store[i].id, value: fix_experiment(store[i].value) },
    )
}

/// All the outcomes of the configurations, configuration after
/// configuration.
pub open spec fn all_outcomes(configs: Seq<Filed<ConfigModel>>) -> Seq<SolveInformation>
    decreases configs.len(),
{
    if configs.len() == 0 {
        seq![]
    } else {
        all_outcomes(configs.drop_last()) + configs.last().value.outcomes
    }
}

/// The numbers of solutions that have votes among the outcomes, each once,
/// in the order of their first votes.
pub open spec fn vote_order(outcomes: Seq<SolveInformation>) -> Seq<u64>
    decreases outcomes.len(),
{
    if outcomes.len() == 0 {
        seq![]
    } else {
        let earlier = vote_order(outcomes.drop_last());
        if outcomes.last().votes() && !earlier.contains(outcomes.last().reported()) {
            earlier.push(outcomes.last().reported())
        } else {
            earlier
        }
    }
}

/// The numbers of solutions that the counts list, in their order.
pub open spec fn listing(counts: Seq<(u64, u128)>) -> Seq<u64> {
    Seq::new(counts.len(), |a: int| counts[a].0)
}

/// The most outcomes that one collection holds.
spec fn most() -> int {
    0xffff_ffff_ffff_ffff
}

/// The votes for `n` among the first `j` configurations and the first `k`
/// outcomes of the next.
spec fn votes_so_far(configs: Seq<Filed<ConfigModel>>, j: int, k: int, n: u64) -> nat {
    if j < configs.len() {
        tally(configs.take(j), n) + votes_for(configs[j].value.outcomes.take(k), n)
    } else {
        tally(configs.take(j), n)
    }
}

/// Whether `counts` has an entry for `n`.
pub open spec fn listed(counts: Seq<(u64, u128)>, n: u64) -> bool {
    exists|a: int| 0 <= a < counts.len() && (#[trigger] counts[a]).0 == n
}

/// `counts` lists each number of solutions that has votes under `votes`
/// once, with its votes.
pub open spec fn counts_match(counts: Seq<(u64, u128)>, votes: spec_fn(u64) -> nat) -> bool {
    &&& forall|a: int, b: int|
        0 <= a < b < counts.len() ==> (#[trigger] counts[a]).0 != (#[trigger] counts[b]).0
    &&& forall|a: int|
        0 <= a < counts.len() ==> (#[trigger] counts[a]).1 > 0 && counts[a].1 == votes(counts[a].0)
    &&& forall|n: u64| votes(n) > 0 ==> #[trigger] listed(counts, n)
}

/// The votes among one more outcome.
proof fn votes_for_step(outcomes: Seq<SolveInformation>, k: int, n: u64)
    requires
        0 <= k < outcomes.len(),
    ensures
        votes_for(outcomes.take(k + 1), n)
            == votes_for(outcomes.take(k), n) + (if outcomes[k].votes()
            && outcomes[k].reported() == n {
            1nat
        } else {
            0nat
        }),
        votes_for(outcomes.take(0), n) == 0,
        votes_for(outcomes.take(k), n) <= k,
    decreases k,
{
    assert(outcomes.take(k + 1).drop_last() =~= outcomes.take(k));
    if k > 0 {
        votes_for_step(outcomes, k - 1, n);
    }
}

/// The tally over one more configuration.
proof fn tally_step(configs: Seq<Filed<ConfigModel>>, j: int, n: u64)
    requires
        0 <= j < configs.len(),
    ensures
        tally(configs.take(j + 1), n) == tally(configs.take(j), n) + votes_for(
            configs[j].value.outcomes,
            n,
        ),
        tally(configs.take(0), n) == 0,
{
    assert(configs.take(j + 1).drop_last() =~= configs.take(j));
}

/// The votes after one more for `n`.
spec fn with_vote(votes: spec_fn(u64) -> nat, n: u64) -> spec_fn(u64) -> nat {
    |m: u64|
        if m == n {
            votes(m) + 1
        } else {
            votes(m)
        }
}

/// Counts one more vote for `n`.
fn count_vote(counts: &mut Vec<(u64, u128)>, n: u64, Ghost(votes): Ghost<spec_fn(u64) -> nat>)
    requires
        counts_match(old(counts)@, votes),
        votes(n) < u128::MAX,
    ensures
        counts_match(final(counts)@, with_vote(votes, n)),
        listing(final(counts)@) == if listing(old(counts)@).contains(n) {
            listing(old(counts)@)
        } else {
            listing(old(counts)@).push(n)
        },
{
    let mut a: usize = 0;
    while a < counts.len()
        invariant
            a <= counts.len(),
            *counts == *old(counts),
            counts_match(counts@, votes),
            votes(n) < u128::MAX,
            forall|b: int| 0 <= b < a ==> (#[trigger] counts@[b]).0 != n,
        decreases counts.len() - a,
    {
        if counts[a].0 == n {
            let ghost before = counts@;
            counts[a].1 += 1;
            proof {
                assert(counts@ =~= before.update(a as int, (n, (before[a as int].1 + 1) as u128)));
                assert(listing(counts@) =~= listing(before));
                assert(listing(before)[a as int] == n);
                let after = with_vote(votes, n);
                assert forall|m: u64| after(m) > 0 implies #[trigger] listed(counts@, m) by {
                    if m != n {
                        assert(listed(before, m));
                        let b = choose|b: int| 0 <= b < before.len()
                            && (#[trigger] before[b]).0 == m;
                        assert(counts@[b].0 == m);
                    } else {
                        assert(counts@[a as int].0 == m);
                    }
                }
                assert forall|b: int| 0 <= b < counts@.len() implies (#[trigger] counts@[b]).1 > 0
                    && counts@[b].1 == after(counts@[b].0) by {
                    assert(before[b].1 == votes(before[b].0));
                    if b != a {
                        assert(before[b].0 != before[a as int].0);
                    }
                }
                assert forall|b: int, c: int| 0 <= b < c < counts@.len() implies (
                #[trigger] counts@[b]).0 != (#[trigger] counts@[c]).0 by {
                    assert(before[b].0 != before[c].0);
                }
            }
            return ;
        }
        a += 1;
    }
    let ghost before = counts@;
    proof {
        if votes(n) > 0 {
            assert(listed(before, n));
            let b = choose|b: int| 0 <= b < before.len() && (#[trigger] before[b]).0 == n;
            assert(false);
        }
    }
    counts.push((n, 1));
    proof {
        let after = with_vote(votes, n);
        assert(listing(counts@) =~= listing(before).push(n));
        if listing(before).contains(n) {
            let b = choose|b: int| 0 <= b < listing(before).len() && listing(before)[b] == n;
            assert(before[b].0 == n);
        }
        assert forall|m: u64| after(m) > 0 implies #[trigger] listed(counts@, m) by {
            if m != n {
                assert(listed(before, m));
                let b = choose|b: int| 0 <= b < before.len() && (#[trigger] before[b]).0 == m;
                assert(counts@[b].0 == m);
            } else {
                assert(counts@[before.len() as int].0 == m);
            }
        }
        assert forall|b: int| 0 <= b < counts@.len() implies (#[trigger] counts@[b]).1 > 0
            && counts@[b].1 == after(counts@[b].0) by {
            if b < before.len() {
                assert(before[b].1 == votes(before[b].0));
            }
        }
        assert forall|b: int, c: int| 0 <= b < c < counts@.len() implies (#[trigger] counts@[b]).0
            != (#[trigger] counts@[c]).0 by {
            if c < before.len() {
                assert(before[b].0 != before[c].0);
            }
        }
    }
}

/// The votes of an experiment: each number of solutions that some success
/// or doubted run of its configurations reports, once, with the number of
/// such outcomes, in the order of the first votes.
pub fn tally_votes(configs: &Vec<Entry<ConfigMultiple>>) -> (counts: Vec<(u64, u128)>)
    ensures
        counts_match(counts@, |n: u64| tally(models(configs@), n)),
        listing(counts@) == vote_order(all_outcomes(models(configs@))),
{
    let ghost ms = models(configs@);
    let mut counts: Vec<(u64, u128)> = Vec::new();
    let mut j: usize = 0;
    proof {
        assert(listing(counts@) =~= vote_order(all_outcomes(ms.take(0))));
        assert forall|n: u64| votes_so_far(ms, 0, 0, n) == 0 by {
            assert(ms.take(0) =~= Seq::empty());
            if 0 < ms.len() {
                assert(ms[0].value.outcomes.take(0).len() == 0);
            }
        }
    }
    while j < configs.len()
        invariant
            j <= configs.len(),
            ms == models(configs@),
            counts_match(counts@, |n: u64| votes_so_far(ms, j as int, 0, n)),
            forall|n: u64| #[trigger] votes_so_far(ms, j as int, 0, n) <= j * most(),
            listing(counts@) == vote_order(all_outcomes(ms.take(j as int))),
        decreases configs.len() - j,
    {
        let outcomes = &configs[j].value.solve_information;
        assert(outcomes@ == ms[j as int].value.outcomes);
        let ghost earlier = all_outcomes(ms.take(j as int));
        let mut k: usize = 0;
        assert(earlier + outcomes@.take(0) =~= earlier);
        while k < outcomes.len()
            invariant
                j < configs.len(),
                k <= outcomes.len(),
                ms == models(configs@),
                outcomes@ == ms[j as int].value.outcomes,
                counts_match(counts@, |n: u64| votes_so_far(ms, j as int, k as int, n)),
                forall|n: u64| #[trigger] votes_so_far(ms, j as int, k as int, n) <= j * most() + k,
                listing(counts@) == vote_order(earlier + outcomes@.take(k as int)),
            decreases outcomes.len() - k,
        {
            let ghost before = |n: u64| votes_so_far(ms, j as int, k as int, n);
            proof {
                assert((earlier + outcomes@.take(k + 1)).drop_last() =~= earlier + outcomes@.take(
                    k as int,
                ));
                assert((earlier + outcomes@.take(k + 1)).last() == outcomes@[k as int]);
                assert forall|n: u64| #[trigger]
                    votes_so_far(ms, j as int, k as int + 1, n) == votes_so_far(
                        ms,
                        j as int,
                        k as int,
                        n,
                    ) + (if outcomes@[k as int].votes() && outcomes@[k as int].reported() == n {
                        1nat
                    } else {
                        0nat
                    }) by {
                    votes_for_step(outcomes@, k as int, n);
                }
            }
            match outcomes[k].vote() {
                Some(n) => {
                    assert(before(n) <= j * most() + k);
                    count_vote(&mut counts, n, Ghost(before));
                },
                None => {},
            }
            k += 1;
        }
        proof {
            assert forall|n: u64| #[trigger]
                votes_so_far(ms, j as int + 1, 0, n) == votes_so_far(
                    ms,
                    j as int,
                    outcomes@.len() as int,
                    n,
                ) by {
                tally_step(ms, j as int, n);
                assert(outcomes@.take(outcomes@.len() as int) =~= outcomes@);
                if j + 1 < ms.len() {
                    assert(ms[j as int + 1].value.outcomes.take(0).len() == 0);
                }
            }
            assert(ms.take(j + 1).drop_last() =~= ms.take(j as int));
            assert(outcomes@.take(outcomes@.len() as int) =~= outcomes@);
        }
        j += 1;
    }
    proof {
        assert(ms.take(ms.len() as int) =~= ms);
    }
    counts
}

/// The ruling that the listed votes give.
fn decide(counts: &Vec<(u64, u128)>, Ghost(configs): Ghost<Seq<Filed<ConfigModel>>>) -> (r: Ruling)
    requires
        counts_match(counts@, |n: u64| tally(configs, n)),
    ensures
        r == ruling(configs),
{
    let ghost votes = |n: u64| tally(configs, n);
    if counts.len() < 2 {
        proof {
            if contested(configs) {
                let (a, b) = choose|a: u64, b: u64|
                    a != b && #[trigger] tally(configs, a) > 0 && #[trigger] tally(configs, b) > 0;
                assert(votes(a) > 0 && votes(b) > 0);
                assert(listed(counts@, a) && listed(counts@, b));
            }
        }
        return Ruling::Unquestioned;
    }
    proof {
        assert(counts@[0].0 != counts@[1].0);
        assert(votes(counts@[0].0) > 0 && votes(counts@[1].0) > 0);
        assert(tally(configs, counts@[0].0) > 0 && tally(configs, counts@[1].0) > 0);
    }
    let mut best: usize = 0;
    let mut tied = false;
    let mut a: usize = 1;
    while a < counts.len()
        invariant
            1 <= a <= counts.len(),
            best < a,
            forall|b: int| 0 <= b < a ==> (#[trigger] counts@[b]).1 <= counts@[best as int].1,
            tied <==> exists|b: int|
                0 <= b < a && b != best && (#[trigger] counts@[b]).1 == counts@[best as int].1,
        decreases counts.len() - a,
    {
        if counts[a].1 > counts[best].1 {
            best = a;
            tied = false;
        } else if counts[a].1 == counts[best].1 {
            tied = true;
        }
        a += 1;
    }
    let winner = counts[best].0;
    let ghost top = counts@[best as int].1;
    assert(votes(winner) == top);
    if tied {
        proof {
            let other = choose|b: int|
                0 <= b < counts@.len() && b != best && (#[trigger] counts@[b]).1 == top;
            assert(counts@[other].0 != counts@[best as int].0);
            assert(votes(counts@[other].0) == top);
            assert forall|w: u64| !wins(configs, w) by {
                if tally(configs, w) > 0 {
                    assert(votes(w) > 0);
                    assert(listed(counts@, w));
                    let at = choose|b: int| 0 <= b < counts@.len()
                        && (#[trigger] counts@[b]).0 == w;
                    assert(votes(counts@[at].0) == counts@[at].1);
                    if counts@[other].0 != w {
                        assert(tally(configs, counts@[other].0) >= tally(configs, w));
                    } else {
                        assert(tally(configs, winner) >= tally(configs, w));
                    }
                }
            }
        }
        Ruling::Tied
    } else {
        proof {
            assert forall|n: u64| n != winner implies #[trigger] tally(configs, n) < tally(
                configs,
                winner,
            ) by {
                if tally(configs, n) > 0 {
                    assert(votes(n) > 0);
                    assert(listed(counts@, n));
                    let at = choose|b: int| 0 <= b < counts@.len()
                        && (#[trigger] counts@[b]).0 == n;
                    assert(votes(counts@[at].0) == counts@[at].1);
                }
            }
            assert(wins(configs, winner));
            winner_is_unique(configs, winner, choose|w: u64| wins(configs, w));
        }
        Ruling::Trusted(winner)
    }
}

/// The ruling on an experiment with these configurations.
pub fn rule(configs: &Vec<Entry<ConfigMultiple>>) -> (r: Ruling)
    ensures
        r == ruling(models(configs@)),
{
    let counts = tally_votes(configs);
    decide(&counts, Ghost(models(configs@)))
}

/// What the reconciliation did or found, by position in the store: the
/// experiment, its configuration and the run of that configuration.
#[derive(Clone, Copy, Debug, PartialEq, Eq)]
pub enum DoubtEvent {
    /// The votes of the experiment are tied; its outcomes were left alone.
    Tied { experiment: usize },
    /// A success that reported `nb_solutions` became a crash.
    Demoted { experiment: usize, config: usize, run: usize, nb_solutions: u64 },
    /// A doubted run that reported `nb_solutions` became a success.
    Promoted { experiment: usize, config: usize, run: usize, nb_solutions: u64 },
}

/// The event, if any, of settling one outcome.
pub open spec fn change_of(
    outcome: SolveInformation,
    winner: u64,
    experiment: usize,
    config: usize,
    run: usize,
) -> Seq<DoubtEvent> {
    match outcome {
        SolveInformation::Success(report) => if report.nb_solutions != winner {
            seq![
                DoubtEvent::Demoted { experiment, config, run, nb_solutions: report.nb_solutions },
            ]
        } else {
            seq![]
        },
        SolveInformation::Doubted(report) => if report.nb_solutions == winner {
            seq![
                DoubtEvent::Promoted { experiment, config, run, nb_solutions: report.nb_solutions },
            ]
        } else {
            seq![]
        },
        _ => seq![],
    }
}

/// The events of settling the first `upto` outcomes of a configuration, in
/// order.
pub open spec fn run_events(
    outcomes: Seq<SolveInformation>,
    winner: u64,
    experiment: usize,
    config: usize,
    upto: int,
) -> Seq<DoubtEvent>
    decreases upto,
{
    if upto <= 0 {
        seq![]
    } else {
        run_events(outcomes, winner, experiment, config, upto - 1) + change_of(
            outcomes[upto - 1],
            winner,
            experiment,
            config,
            (upto - 1) as usize,
        )
    }
}

/// The events of settling the first `upto` configurations of an
/// experiment, in order.
pub open spec fn config_events(
    configs: Seq<Filed<ConfigModel>>,
    winner: u64,
    experiment: usize,
    upto: int,
) -> Seq<DoubtEvent>
    decreases upto,
{
    if upto <= 0 {
        seq![]
    } else {
        config_events(configs, winner, experiment, upto - 1) + run_events(
            configs[upto - 1].value.outcomes,
            winner,
            experiment,
            (upto - 1) as usize,
            configs[upto - 1].value.outcomes.len() as int,
        )
    }
}

/// The events of reconciling one experiment.
pub open spec fn experiment_events(configs: Seq<Filed<ConfigModel>>, experiment: usize) -> Seq<
    DoubtEvent,
> {
    match ruling(configs) {
        Ruling::Unquestioned => seq![],
        Ruling::Tied => seq![DoubtEvent::Tied { experiment }],
        Ruling::Trusted(winner) => config_events(configs, winner, experiment, configs.len() as int),
    }
}

/// The events of reconciling the first `upto` experiments of a store, in
/// order.
pub open spec fn fix_events(store: Seq<Filed<ExperimentModel>>, upto: int) -> Seq<DoubtEvent>
    decreases upto,
{
    if upto <= 0 {
        seq![]
    } else {
        fix_events(store, upto - 1) + experiment_events(
            store[upto - 1].value.configs,
            (upto - 1) as usize,
        )
    }
}

/// Settles the outcomes of one configuration under the trusted `winner`.
fn settle_outcomes(
    outcomes: &mut Vec<SolveInformation>,
    winner: u64,
    experiment: usize,
    config: usize,
    events: &mut Vec<DoubtEvent>,
)
    ensures
        final(outcomes)@ == all_settled(old(outcomes)@, winner),
        final(events)@ == old(events)@ + run_events(
            old(outcomes)@,
            winner,
            experiment,
            config,
            old(outcomes)@.len() as int,
        ),
{
    let ghost before = outcomes@;
    let ghost reported = events@;
    let mut k: usize = 0;
    assert(events@ =~= reported + run_events(before, winner, experiment, config, 0));
    while k < outcomes.len()
        invariant
            k <= outcomes.len(),
            outcomes@.len() == before.len(),
            forall|x: int| 0 <= x < k ==> #[trigger] outcomes@[x] == settled(before[x], winner),
            forall|x: int| k <= x < before.len() ==> #[trigger] outcomes@[x] == before[x],
            events@ == reported + run_events(before, winner, experiment, config, k as int),
        decreases outcomes.len() - k,
    {
        let mut taken = SolveInformation::Timeout {
            seed: None,
            memory_limit: 0,
            time_limit: 0,
            machine_info: String::new(),
        };
        core::mem::swap(&mut outcomes[k], &mut taken);
        assert(taken == before[k as int]);
        let ghost so_far = events@;
        let replacement = match taken {
            SolveInformation::Success(report) => {
                if report.nb_solutions != winner {
                    events.push(
                        DoubtEvent::Demoted {
                            experiment,
                            config,
                            run: k,
                            nb_solutions: report.nb_solutions,
                        },
                    );
                    SolveInformation::Crash {
                        seed: report.seed,
                        memory_limit: report.memory_limit,
                        time_limit: Some(report.time_limit),
                        machine_info: report.machine_info,
                        crash_time: report.total_sr_time,
                    }
                } else {
                    SolveInformation::Success(report)
                }
            },
            SolveInformation::Doubted(report) => {
                if report.nb_solutions == winner {
                    events.push(
                        DoubtEvent::Promoted {
                            experiment,
                            config,
                            run: k,
                            nb_solutions: report.nb_solutions,
                        },
                    );
                    SolveInformation::Success(report)
                } else {
                    SolveInformation::Doubted(report)
                }
            },
            other => other,
        };
        assert(replacement == settled(before[k as int], winner));
        assert(events@ =~= so_far + change_of(before[k as int], winner, experiment, config, k));
        outcomes[k] = replacement;
        k += 1;
        assert(events@ =~= reported + run_events(before, winner, experiment, config, k as int));
    }
    assert(outcomes@ =~= all_settled(before, winner));
}

/// Settles the configurations of one experiment under the trusted
/// `winner`.
fn settle_configs(
    configs: &mut Vec<Entry<ConfigMultiple>>,
    winner: u64,
    experiment: usize,
    events: &mut Vec<DoubtEvent>,
)
    ensures
        models(final(configs)@) == fix_configs(models(old(configs)@), Ruling::Trusted(winner)),
        final(events)@ == old(events)@ + config_events(
            models(old(configs)@),
            winner,
            experiment,
            old(configs)@.len() as int,
        ),
{
    let ghost before = models(configs@);
    let ghost after = fix_configs(before, Ruling::Trusted(winner));
    let ghost reported = events@;
    let mut j: usize = 0;
    assert(events@ =~= reported + config_events(before, winner, experiment, 0));
    while j < configs.len()
        invariant
            j <= configs.len(),
            configs@.len() == before.len(),
            after == fix_configs(before, Ruling::Trusted(winner)),
            forall|x: int| 0 <= x < j ==> #[trigger] models(configs@)[x] == after[x],
            forall|x: int| j <= x < before.len() ==> #[trigger] models(configs@)[x] == before[x],
            events@ == reported + config_events(before, winner, experiment, j as int),
        decreases configs.len() - j,
    {
        let ghost old_models = models(configs@);
        let ghost so_far = events@;
        assert(old_models[j as int] == before[j as int]);
        settle_outcomes(&mut configs[j].value.solve_information, winner, experiment, j, events);
        proof {
            assert forall|x: int| 0 <= x < before.len() && x != j implies #[trigger] models(
                configs@,
            )[x] == old_models[x] by {}
            assert(models(configs@)[j as int].value.outcomes =~= after[j as int].value.outcomes);
            assert(models(configs@)[j as int] == after[j as int]);
            assert(events@ =~= reported + config_events(before, winner, experiment, j as int + 1));
        }
        j += 1;
    }
    assert(models(configs@) =~= after);
}

/// Reconciles the store: in each experiment whose successes and doubted
/// runs disagree on the number of solutions, the number with the most
/// votes is trusted. Successes that reported another number become crashes,
/// doubted runs that reported it become successes. Where the most votes are
/// shared, the experiment is left as it is. Returns what was done, in the
/// order of the store.
pub fn fix_doubts(store: &mut ExperimentStore) -> (events: Vec<DoubtEvent>)
    ensures
        final(store)@ == fix(old(store)@),
        events@ == fix_events(old(store)@, old(store)@.len() as int),
        well_formed(old(store)@) ==> well_formed(final(store)@),
{
    let ghost before = store@;
    let ghost after = fix(before);
    proof {
        fix_keeps_well_formed(before);
    }
    let mut events: Vec<DoubtEvent> = Vec::new();
    let mut i: usize = 0;
    while i < store.experiments.len()
        invariant
            i <= store.experiments.len(),
            store@.len() == before.len(),
            after == fix(before),
            forall|x: int| 0 <= x < i ==> #[trigger] store@[x] == after[x],
            forall|x: int| i <= x < before.len() ==> #[trigger] store@[x] == before[x],
            events@ == fix_events(before, i as int),
        decreases store.experiments.len() - i,
    {
        let ghost old_store = store@;
        let ghost so_far = events@;
        let ghost configs = before[i as int].value.configs;
        assert(old_store[i as int] == before[i as int]);
        match rule(&store.experiments[i].value.configs) {
            Ruling::Unquestioned => {
                assert(fix_configs(configs, Ruling::Unquestioned) =~= configs) by {
                    assert forall|j: int| 0 <= j < configs.len() implies #[trigger] fix_configs(
                        configs,
                        Ruling::Unquestioned,
                    )[j] == configs[j] by {
                        assert(fix_configs(configs, Ruling::Unquestioned)[j].value.outcomes
                            =~= configs[j].value.outcomes);
                    }
                }
            },
            Ruling::Tied => {
                events.push(DoubtEvent::Tied { experiment: i });
                assert(fix_configs(configs, Ruling::Tied) =~= configs) by {
                    assert forall|j: int| 0 <= j < configs.len() implies #[trigger] fix_configs(
                        configs,
                        Ruling::Tied,
                    )[j] == configs[j] by {
                        assert(fix_configs(configs, Ruling::Tied)[j].value.outcomes
                            =~= configs[j].value.outcomes);
                    }
                }
            },
            Ruling::Trusted(winner) => {
                settle_configs(&mut store.experiments[i].value.configs, winner, i, &mut events);
            },
        }
        proof {
            assert forall|x: int| 0 <= x < before.len() && x != i implies #[trigger] store@[x]
                == old_store[x] by {}
            assert(store@[i as int] == after[i as int]);
            assert(events@ =~= so_far + experiment_events(configs, i));
        }
        i += 1;
    }
    assert(store@ =~= after);
    events
}

} // verus!
