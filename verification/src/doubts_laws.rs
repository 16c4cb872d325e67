use crate::doubts::{
    all_outcomes, all_settled, contested, fix, fix_configs, fix_events, fix_experiment, ruling,
    settled, tally, votes_for, winner_is_unique, wins, Ruling,
};
use crate::outcome::SolveInformation;
use crate::store::{distinct_ids, well_formed, ConfigModel, ExperimentModel, Filed};
use vstd::prelude::*;
use vstd::seq_lib::{to_multiset_build, to_multiset_contains, to_multiset_len, to_multiset_remove};

verus! {

/// The votes of two runs of outcomes, one after the other, are the votes of
/// each together.
pub proof fn votes_add_up(a: Seq<SolveInformation>, b: Seq<SolveInformation>, n: u64)
    ensures
        votes_for(a + b, n) == votes_for(a, n) + votes_for(b, n),
    decreases b.len(),
{
    if b.len() == 0 {
        assert(a + b =~= a);
    } else {
        votes_add_up(a, b.drop_last(), n);
        assert((a + b).drop_last() =~= a + b.drop_last());
    }
}

/// The tally of an experiment counts the outcomes of all its
/// configurations as one run of outcomes.
pub proof fn tally_is_votes_of_all(configs: Seq<Filed<ConfigModel>>, n: u64)
    ensures
        tally(configs, n) == votes_for(all_outcomes(configs), n),
    decreases configs.len(),
{
    if configs.len() > 0 {
        tally_is_votes_of_all(configs.drop_last(), n);
        votes_add_up(all_outcomes(configs.drop_last()), configs.last().value.outcomes, n);
    }
}

/// The votes do not depend on the order of the outcomes.
pub proof fn votes_ignore_order(a: Seq<SolveInformation>, b: Seq<SolveInformation>, n: u64)
    requires
        a.to_multiset() == b.to_multiset(),
    ensures
        votes_for(a, n) == votes_for(b, n),
    decreases a.len(),
{
    to_multiset_len(a);
    to_multiset_len(b);
    if a.len() > 0 {
        let x = a.last();
        let front = a.drop_last();
        assert(front.push(x) =~= a);
        to_multiset_build(front, x);
        to_multiset_contains(a, x);
        to_multiset_contains(b, x);
        assert(a.contains(x)) by {
            assert(a[a.len() - 1] == x);
        }
        let i = choose|i: int| 0 <= i < b.len() && b[i] == x;
        let rest = b.remove(i);
        to_multiset_remove(b, i);
        assert(front.to_multiset() =~= a.to_multiset().remove(x));
        votes_ignore_order(front, rest, n);
        let left = b.subrange(0, i);
        let right = b.subrange(i + 1, b.len() as int);
        assert(b =~= left + seq![x] + right);
        votes_add_up(left, right, n);
        votes_add_up(left, seq![x], n);
        votes_add_up(left + seq![x], right, n);
        assert(seq![x].drop_last().len() == 0);
        assert(votes_for(seq![x].drop_last(), n) == 0);
        assert(seq![x].last() == x);
        assert(votes_for(seq![x], n) == if x.votes() && x.reported() == n {
            1nat
        } else {
            0nat
        });
    }
}

/// The ruling on an experiment depends on its tally alone.
pub proof fn ruling_follows_tally(a: Seq<Filed<ConfigModel>>, b: Seq<Filed<ConfigModel>>)
    requires
        forall|n: u64| #[trigger] tally(a, n) == tally(b, n),
    ensures
        ruling(a) == ruling(b),
{
    if contested(a) {
        let (x, y) = choose|x: u64, y: u64|
            x != y && #[trigger] tally(a, x) > 0 && #[trigger] tally(a, y) > 0;
        assert(tally(b, x) > 0 && tally(b, y) > 0);
    }
    if contested(b) {
        let (x, y) = choose|x: u64, y: u64|
            x != y && #[trigger] tally(b, x) > 0 && #[trigger] tally(b, y) > 0;
        assert(tally(a, x) > 0 && tally(a, y) > 0);
    }
    assert forall|w: u64| wins(a, w) == wins(b, w) by {
        if wins(a, w) {
            assert forall|n: u64| n != w implies #[trigger] tally(b, n) < tally(b, w) by {
                assert(tally(a, n) < tally(a, w));
            }
        }
        if wins(b, w) {
            assert forall|n: u64| n != w implies #[trigger] tally(a, n) < tally(a, w) by {
                assert(tally(b, n) < tally(b, w));
            }
        }
    }
    if exists|w: u64| wins(a, w) {
        let wa = choose|w: u64| wins(a, w);
        assert(wins(b, wa));
        let wb = choose|w: u64| wins(b, w);
        winner_is_unique(b, wa, wb);
    } else if exists|w: u64| wins(b, w) {
        let wb = choose|w: u64| wins(b, w);
        assert(wins(a, wb));
    }
}

/// The tally and the ruling of an experiment do not depend on the order
/// in which its outcomes are met, nor on the configurations they stand
/// under.
pub proof fn ruling_ignores_order(a: Seq<Filed<ConfigModel>>, b: Seq<Filed<ConfigModel>>)
    requires
        all_outcomes(a).to_multiset() == all_outcomes(b).to_multiset(),
    ensures
        forall|n: u64| #[trigger] tally(a, n) == tally(b, n),
        ruling(a) == ruling(b),
{
    assert forall|n: u64| #[trigger] tally(a, n) == tally(b, n) by {
        tally_is_votes_of_all(a, n);
        tally_is_votes_of_all(b, n);
        votes_ignore_order(all_outcomes(a), all_outcomes(b), n);
    }
    ruling_follows_tally(a, b);
}

/// An experiment whose votes are tied, or give nothing to settle, is left
/// as it is.
pub proof fn unsettled_is_unchanged(experiment: ExperimentModel)
    requires
        !(ruling(experiment.configs) is Trusted),
    ensures
        fix_experiment(experiment) == experiment,
{
    let configs = experiment.configs;
    let fixed = fix_configs(configs, ruling(configs));
    assert forall|j: int| 0 <= j < configs.len() implies #[trigger] fixed[j] == configs[j] by {
        assert(fixed[j].value.outcomes =~= configs[j].value.outcomes);
    }
    assert(fixed =~= configs);
}

/// A store none of whose experiments has a trusted number of solutions is
/// the same after reconciliation.
pub proof fn unsettled_store_is_unchanged(store: Seq<Filed<ExperimentModel>>)
    requires
        forall|i: int| 0 <= i < store.len()
            ==> !(ruling((#[trigger] store[i]).value.configs) is Trusted),
    ensures
        fix(store) == store,
        fix_events(store, store.len() as int).len() <= store.len(),
{
    assert forall|i: int| 0 <= i < store.len() implies #[trigger] fix(store)[i] == store[i] by {
        unsettled_is_unchanged(store[i].value);
    }
    assert(fix(store) =~= store);
    unsettled_events(store, store.len() as int);
}

/// Without a trusted number of solutions each experiment has at most one
/// event, that of its tie.
proof fn unsettled_events(store: Seq<Filed<ExperimentModel>>, upto: int)
    requires
        0 <= upto <= store.len(),
        forall|i: int| 0 <= i < store.len()
            ==> !(ruling((#[trigger] store[i]).value.configs) is Trusted),
    ensures
        fix_events(store, upto).len() <= upto,
    decreases upto,
{
    if upto > 0 {
        unsettled_events(store, upto - 1);
        assert(!(ruling(store[upto - 1].value.configs) is Trusted));
    }
}

/// Under a trusted number of solutions each success reports it, and each
/// outcome that is still doubted reports another.
pub proof fn settled_agrees(outcome: SolveInformation, winner: u64)
    ensures
        settled(outcome, winner) is Success ==> settled(outcome, winner).reported() == winner,
        settled(outcome, winner) is Doubted ==> settled(outcome, winner).reported() != winner,
        settled(outcome, winner) is Success <==> outcome.votes() && outcome.reported() == winner,
        settled(outcome, winner) is Doubted <==> outcome is Doubted && outcome.reported() != winner,
{
}

/// Reconciliation keeps every identifier where it is: a store in which no
/// identifier stands twice stays such a store.
pub proof fn fix_keeps_well_formed(store: Seq<Filed<ExperimentModel>>)
    ensures
        fix(store).len() == store.len(),
        forall|i: int| 0 <= i < store.len() ==> (#[trigger] fix(store)[i]).id == store[i].id,
        well_formed(store) ==> well_formed(fix(store)),
{
    let after = fix(store);
    if well_formed(store) {
        assert forall|i: int, j: int| 0 <= i < j < after.len() implies (#[trigger] after[i]).id != (
        #[trigger] after[j]).id by {
            assert(store[i].id != store[j].id);
        }
        assert forall|i: int| 0 <= i < after.len() implies distinct_ids(
            (#[trigger] after[i]).value.configs,
        ) by {
            let before = store[i].value.configs;
            let fixed = after[i].value.configs;
            assert(distinct_ids(before));
            assert forall|a: int, b: int| 0 <= a < b < fixed.len() implies (#[trigger] fixed[a]).id
                != (#[trigger] fixed[b]).id by {
                assert(before[a].id != before[b].id);
            }
        }
    }
}

/// Settling keeps the votes for the winner and adds none for another
/// number.
proof fn votes_after_settling(outcomes: Seq<SolveInformation>, winner: u64, n: u64)
    ensures
        votes_for(all_settled(outcomes, winner), winner) == votes_for(outcomes, winner),
        votes_for(all_settled(outcomes, winner), n) <= votes_for(outcomes, n),
    decreases outcomes.len(),
{
    if outcomes.len() > 0 {
        votes_after_settling(outcomes.drop_last(), winner, n);
        assert(all_settled(outcomes, winner).drop_last() =~= all_settled(
            outcomes.drop_last(),
            winner,
        ));
    }
}

/// Settling an experiment keeps the tally of the winner and raises no
/// other.
proof fn tally_after_settling(configs: Seq<Filed<ConfigModel>>, winner: u64, n: u64)
    ensures
        tally(fix_configs(configs, Ruling::Trusted(winner)), winner) == tally(configs, winner),
        tally(fix_configs(configs, Ruling::Trusted(winner)), n) <= tally(configs, n),
    decreases configs.len(),
{
    let fixed = fix_configs(configs, Ruling::Trusted(winner));
    if configs.len() > 0 {
        tally_after_settling(configs.drop_last(), winner, n);
        assert(fixed.drop_last() =~= fix_configs(configs.drop_last(), Ruling::Trusted(winner)));
        assert(fixed.last().value.outcomes =~= all_settled(configs.last().value.outcomes, winner));
        votes_after_settling(configs.last().value.outcomes, winner, n);
    }
}

/// Reconciliation settles an experiment for good: a second pass leaves it
/// as the first did.
pub proof fn fix_settles(experiment: ExperimentModel)
    ensures
        fix_experiment(fix_experiment(experiment)) == fix_experiment(experiment),
{
    let configs = experiment.configs;
    let once = fix_experiment(experiment);
    match ruling(configs) {
        Ruling::Trusted(winner) => {
            let fixed = once.configs;
            assert(exists|w: u64| wins(configs, w));
            assert(wins(configs, winner));
            assert forall|n: u64| n != winner implies #[trigger] tally(fixed, n) < tally(
                fixed,
                winner,
            ) by {
                tally_after_settling(configs, winner, n);
                assert(tally(configs, n) < tally(configs, winner));
            }
            tally_after_settling(configs, winner, winner);
            assert(wins(fixed, winner));
            if contested(fixed) {
                winner_is_unique(fixed, winner, choose|w: u64| wins(fixed, w));
            }
            let again = fix_configs(fixed, ruling(fixed));
            assert forall|j: int| 0 <= j < fixed.len() implies #[trigger] again[j] == fixed[j] by {
                assert(again[j].value.outcomes =~= fixed[j].value.outcomes);
            }
            assert(again =~= fixed);
        },
        _ => {
            unsettled_is_unchanged(experiment);
        },
    }
}

/// Reconciliation settles a store for good: a second pass leaves it as the
/// first did.
pub proof fn fix_is_idempotent(store: Seq<Filed<ExperimentModel>>)
    ensures
        fix(fix(store)) == fix(store),
{
    assert forall|i: int| 0 <= i < store.len() implies #[trigger] fix(fix(store))[i] == fix(
        store,
    )[i] by {
        fix_settles(store[i].value);
    }
    assert(fix(fix(store)) =~= fix(store));
}

} // verus!
