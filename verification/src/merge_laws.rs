use crate::merge::{merge, merge_all, merge_event, MergeEvent};
use crate::outcome::SolveInformation;
use crate::store::{
    distinct_ids, position_of, position_of_is_first, well_formed, ExperimentModel, Filed,
    RecordModel,
};
use vstd::prelude::*;

verus! {

/// Merging a record into a store in which no identifier stands twice gives
/// such a store.
pub proof fn merge_keeps_well_formed(store: Seq<Filed<ExperimentModel>>, record: RecordModel)
    requires
        well_formed(store),
    ensures
        well_formed(merge(store, record)),
{
    let after = merge(store, record);
    let e = position_of(store, record.exp_id);
    position_of_is_first(store, record.exp_id);
    assert forall|i: int, j: int| 0 <= i < j < after.len() implies (#[trigger] after[i]).id != (
    #[trigger] after[j]).id by {
        if j < store.len() {
            assert(store[i].id != store[j].id);
        } else {
            assert(store[i].id != record.exp_id);
        }
    }
    assert forall|i: int| 0 <= i < after.len() implies distinct_ids(
        (#[trigger] after[i]).value.configs,
    ) by {
        if i < store.len() && i != e {
            assert(distinct_ids(store[i].value.configs));
        } else if i == e && e < store.len() {
            let configs = store[e].value.configs;
            let grown = after[e].value.configs;
            position_of_is_first(configs, record.config_id);
            assert(distinct_ids(configs));
            assert forall|a: int, b: int| 0 <= a < b < grown.len() implies (#[trigger] grown[a]).id
                != (#[trigger] grown[b]).id by {
                if b < configs.len() {
                    assert(configs[a].id != configs[b].id);
                } else {
                    assert(configs[a].id != record.config_id);
                }
            }
        }
    }
}

/// Merging a record leaves every configuration but the record's own as it
/// was, and every outcome of the record's own where it was.
pub proof fn merge_touches_one_configuration(
    store: Seq<Filed<ExperimentModel>>,
    record: RecordModel,
    i: int,
    j: int,
)
    requires
        0 <= i < store.len(),
        0 <= j < store[i].value.configs.len(),
    ensures
        i < merge(store, record).len(),
        j < merge(store, record)[i].value.configs.len(),
        merge(store, record)[i].id == store[i].id,
        merge(store, record)[i].value.configs[j].id == store[i].value.configs[j].id,
        merge(store, record)[i].value.configs[j].value.settings
            == store[i].value.configs[j].value.settings,
        i == position_of(store, record.exp_id) && j == position_of(
            store[i].value.configs,
            record.config_id,
        ) || merge(store, record)[i].value.configs[j] == store[i].value.configs[j],
        store[i].value.configs[j].value.outcomes.is_prefix_of(
            merge(store, record)[i].value.configs[j].value.outcomes,
        ),
{
    position_of_is_first(store, record.exp_id);
    position_of_is_first(store[i].value.configs, record.config_id);
}

/// A success that reports another number of solutions than a success
/// recorded for its configuration is appended as doubted, with its report
/// as it came, and what was recorded stays as it was.
pub proof fn disagreement_is_doubted(
    store: Seq<Filed<ExperimentModel>>,
    record: RecordModel,
    k: int,
)
    requires
        position_of(store, record.exp_id) < store.len(),
        position_of(store[position_of(store, record.exp_id)].value.configs, record.config_id)
            < store[position_of(store, record.exp_id)].value.configs.len(),
        record.config.outcomes.len() == 1,
        record.config.outcomes[0] is Success,
        ({
            let e = position_of(store, record.exp_id);
            let configs = store[e].value.configs;
            let recorded = configs[position_of(configs, record.config_id)].value.outcomes;
            &&& 0 <= k < recorded.len()
            &&& recorded[k] is Success
            &&& recorded[k]->Success_0.nb_solutions
                != record.config.outcomes[0]->Success_0.nb_solutions
        }),
    ensures
        ({
            let e = position_of(store, record.exp_id);
            let configs = store[e].value.configs;
            let c = position_of(configs, record.config_id);
            let recorded = configs[c].value.outcomes;
            &&& merge(store, record)[e].value.configs[c].value.outcomes == recorded.push(
                SolveInformation::Doubted(record.config.outcomes[0]->Success_0),
            )
            &&& merge_event(store, record) == MergeEvent::Doubted
        }),
{
    position_of_is_first(store, record.exp_id);
    let e = position_of(store, record.exp_id);
    position_of_is_first(store[e].value.configs, record.config_id);
}

/// How many configurations the experiments of a store hold together.
pub open spec fn count_configs(store: Seq<Filed<ExperimentModel>>) -> nat
    decreases store.len(),
{
    if store.len() == 0 {
        0
    } else {
        count_configs(store.drop_last()) + store.last().value.configs.len()
    }
}

/// Each configuration of the store holds exactly one outcome.
pub open spec fn single_outcomes(store: Seq<Filed<ExperimentModel>>) -> bool {
    forall|i: int, j: int|
        0 <= i < store.len() && 0 <= j < store[i].value.configs.len() ==> (
        #[trigger] store[i].value.configs[j]).value.outcomes.len() == 1
}

/// Whether the store holds the configuration `config_id` of the experiment
/// `exp_id`.
pub open spec fn files(store: Seq<Filed<ExperimentModel>>, exp_id: Seq<char>, config_id: Seq<char>)
    -> bool {
    exists|i: int, j: int|
        0 <= i < store.len() && 0 <= j < store[i].value.configs.len() && store[i].id == exp_id && (
        #[trigger] store[i].value.configs[j]).id == config_id
}

/// Whether one of the records is of the configuration `config_id` of the
/// experiment `exp_id`.
pub open spec fn records_name(records: Seq<RecordModel>, exp_id: Seq<char>, config_id: Seq<char>)
    -> bool {
    exists|k: int|
        0 <= k < records.len() && (#[trigger] records[k]).exp_id == exp_id && records[k].config_id
            == config_id
}

/// No two of the records are of the same configuration of the same
/// experiment.
pub open spec fn distinct_pairs(records: Seq<RecordModel>) -> bool {
    forall|a: int, b: int|
        0 <= a < b < records.len() ==> !((#[trigger] records[a]).exp_id == (
        #[trigger] records[b]).exp_id && records[a].config_id == records[b].config_id)
}

/// The count of configurations after one experiment was replaced.
proof fn count_after_update(
    store: Seq<Filed<ExperimentModel>>,
    e: int,
    entry: Filed<ExperimentModel>,
)
    requires
        0 <= e < store.len(),
    ensures
        count_configs(store.update(e, entry)) == count_configs(store) - store[e].value.configs.len()
            + entry.value.configs.len(),
    decreases store.len(),
{
    if e == store.len() - 1 {
        assert(store.update(e, entry).drop_last() =~= store.drop_last());
    } else {
        count_after_update(store.drop_last(), e, entry);
        assert(store.update(e, entry).drop_last() =~= store.drop_last().update(e, entry));
    }
}

/// Merging a record of a configuration that the store does not hold adds
/// that configuration, with the record's outcome alone, and nothing else.
pub proof fn merge_files_new_pair(store: Seq<Filed<ExperimentModel>>, record: RecordModel)
    requires
        well_formed(store),
        single_outcomes(store),
        record.config.outcomes.len() == 1,
        !files(store, record.exp_id, record.config_id),
    ensures
        well_formed(merge(store, record)),
        single_outcomes(merge(store, record)),
        count_configs(merge(store, record)) == count_configs(store) + 1,
        forall|exp_id: Seq<char>, config_id: Seq<char>| #[trigger]
            files(merge(store, record), exp_id, config_id) <==> files(store, exp_id, config_id) || (
            exp_id == record.exp_id && config_id == record.config_id),
{
    let after = merge(store, record);
    let e = position_of(store, record.exp_id);
    position_of_is_first(store, record.exp_id);
    merge_keeps_well_formed(store, record);
    // where the new configuration stands
    let (at, under) = if e == store.len() {
        (store.len() as int, 0int)
    } else {
        (e, store[e].value.configs.len() as int)
    };
    if e == store.len() {
        assert(after.drop_last() =~= store);
    } else {
        let configs = store[e].value.configs;
        position_of_is_first(configs, record.config_id);
        if position_of(configs, record.config_id) < configs.len() {
            assert(store[e].value.configs[position_of(configs, record.config_id)].id
                == record.config_id);
            assert(files(store, record.exp_id, record.config_id));
        }
        count_after_update(store, e, after[e]);
    }
    assert(after[at].id == record.exp_id && after[at].value.configs[under].id == record.config_id);
    assert forall|i: int, j: int|
        0 <= i < after.len() && 0 <= j < after[i].value.configs.len() implies (
    #[trigger] after[i].value.configs[j]).value.outcomes.len() == 1 by {
        if i != at || j != under {
            assert(store[i].value.configs[j].value.outcomes.len() == 1);
        }
    }
    assert forall|exp_id: Seq<char>, config_id: Seq<char>| #[trigger]
        files(after, exp_id, config_id) <==> files(store, exp_id, config_id) || (exp_id
            == record.exp_id && config_id == record.config_id) by {
        if files(after, exp_id, config_id) {
            let (i, j) = choose|i: int, j: int|
                0 <= i < after.len() && 0 <= j < after[i].value.configs.len() && after[i].id
                    == exp_id && (#[trigger] after[i].value.configs[j]).id == config_id;
            if i != at || j != under {
                assert(store[i].value.configs[j].id == config_id);
            }
        }
        if files(store, exp_id, config_id) {
            let (i, j) = choose|i: int, j: int|
                0 <= i < store.len() && 0 <= j < store[i].value.configs.len() && store[i].id
                    == exp_id && (#[trigger] store[i].value.configs[j]).id == config_id;
            assert(after[i].value.configs[j].id == config_id);
        }
    }
}

/// Which configurations the store holds after records of different
/// configurations were merged into an empty store.
proof fn merged_pairs(records: Seq<RecordModel>)
    requires
        distinct_pairs(records),
        forall|k: int|
            0 <= k < records.len() ==> (#[trigger] records[k]).config.outcomes.len() == 1,
    ensures
        well_formed(merge_all(Seq::empty(), records)),
        single_outcomes(merge_all(Seq::empty(), records)),
        count_configs(merge_all(Seq::empty(), records)) == records.len(),
        forall|exp_id: Seq<char>, config_id: Seq<char>| #[trigger]
            files(merge_all(Seq::empty(), records), exp_id, config_id) <==> records_name(
                records,
                exp_id,
                config_id,
            ),
    decreases records.len(),
{
    let empty = Seq::<Filed<ExperimentModel>>::empty();
    if records.len() > 0 {
        let front = records.drop_last();
        let last = records.last();
        assert(distinct_pairs(front)) by {
            assert forall|a: int, b: int| 0 <= a < b < front.len() implies !((
            #[trigger] front[a]).exp_id == (#[trigger] front[b]).exp_id && front[a].config_id
                == front[b].config_id) by {
                assert(front[a] == records[a] && front[b] == records[b]);
            }
        }
        assert forall|k: int| 0 <= k < front.len() implies (
        #[trigger] front[k]).config.outcomes.len() == 1 by {
            assert(front[k] == records[k]);
        }
        merged_pairs(front);
        let store = merge_all(empty, front);
        if records_name(front, last.exp_id, last.config_id) {
            let k = choose|k: int|
                0 <= k < front.len() && (#[trigger] front[k]).exp_id == last.exp_id
                    && front[k].config_id == last.config_id;
            assert(records[k] == front[k]);
            assert(records[records.len() - 1] == last);
        }
        merge_files_new_pair(store, last);
        let after = merge(store, last);
        assert forall|exp_id: Seq<char>, config_id: Seq<char>| #[trigger]
            files(after, exp_id, config_id) <==> records_name(records, exp_id, config_id) by {
            if records_name(front, exp_id, config_id) {
                let k = choose|k: int|
                    0 <= k < front.len() && (#[trigger] front[k]).exp_id == exp_id
                        && front[k].config_id == config_id;
                assert(records[k] == front[k]);
            }
            if exp_id == last.exp_id && config_id == last.config_id {
                assert(records[records.len() - 1] == last);
            }
            if records_name(records, exp_id, config_id) {
                let k = choose|k: int|
                    0 <= k < records.len() && (#[trigger] records[k]).exp_id == exp_id
                        && records[k].config_id == config_id;
                if k < front.len() {
                    assert(front[k] == records[k]);
                }
            }
        }
    } else {
        assert forall|exp_id: Seq<char>, config_id: Seq<char>| !#[trigger] files(
            empty,
            exp_id,
            config_id,
        ) by {}
    }
}

/// When records of different configurations, each with one outcome, are
/// merged into an empty store, the store holds as many configurations as
/// there were records, each with exactly one outcome, and no identifier
/// twice.
pub proof fn merging_distinct_records(records: Seq<RecordModel>)
    requires
        distinct_pairs(records),
        forall|k: int|
            0 <= k < records.len() ==> (#[trigger] records[k]).config.outcomes.len() == 1,
    ensures
        count_configs(merge_all(Seq::empty(), records)) == records.len(),
        single_outcomes(merge_all(Seq::empty(), records)),
        well_formed(merge_all(Seq::empty(), records)),
{
    merged_pairs(records);
}

} // verus!
