use crate::merge_laws::merge_keeps_well_formed;
use crate::outcome::SolveInformation;
use crate::store::{
    find, position_of, position_of_is_first, well_formed, ConfigModel, ConfigMultiple, Entry,
    ExperimentModel, ExperimentMultiple, ExperimentSingle, ExperimentStore, Filed, RecordModel,
};
use vstd::prelude::*;

verus! {

/// What merging one record did to the store.
#[derive(Clone, Copy, Debug, PartialEq, Eq)]
pub enum MergeEvent {
    /// The experiment was new: it was added with the record's configuration.
    NewExperiment,
    /// The configuration was new to its experiment: it was added.
    NewConfiguration,
    /// The outcome was appended to its configuration as it came.
    Appended,
    /// The outcome was a success that disagreed with a recorded success on
    /// the number of solutions: it was appended as doubted.
    Doubted,
}

/// Whether an incoming outcome is a success whose number of solutions
/// differs from that of some recorded success.
pub open spec fn disagrees(recorded: Seq<SolveInformation>, incoming: SolveInformation) -> bool {
    incoming is Success && exists|i: int|
        0 <= i < recorded.len() && (#[trigger] recorded[i]) is Success
            && recorded[i]->Success_0.nb_solutions != incoming->Success_0.nb_solutions
}

/// The outcome as it is appended: doubted where it disagrees, else as it
/// came.
pub open spec fn filed_as(recorded: Seq<SolveInformation>, incoming: SolveInformation)
    -> SolveInformation {
    if disagrees(recorded, incoming) {
        SolveInformation::Doubted(incoming->Success_0)
    } else {
        incoming
    }
}

/// The experiment that a record founds: the record's description and its
/// configuration alone.
pub open spec fn founded(record: RecordModel) -> Filed<ExperimentModel> {
    Filed {
        id: record.exp_id,
        value: ExperimentModel {
            model: record.model,
            instance: record.instance,
            freq: record.freq,
            configs: seq![Filed { id: record.config_id, value: record.config }],
        },
    }
}

/// An experiment after a record of it was merged.
pub open spec fn merge_into_experiment(experiment: ExperimentModel, record: RecordModel)
    -> ExperimentModel {
    let c = position_of(experiment.configs, record.config_id);
    if c == experiment.configs.len() {
        ExperimentModel {
            configs: experiment.configs.push(Filed { id: record.config_id, value: record.config }),
            ..experiment
        }
    } else {
        let config = experiment.configs[c].value;
        let appended = ConfigModel {
            outcomes: config.outcomes.push(filed_as(config.outcomes, record.config.outcomes[0])),
            ..config
        };
        ExperimentModel {
            configs: experiment.configs.update(
                c,
                Filed { id: experiment.configs[c].id, value: appended },
            ),
            ..experiment
        }
    }
}

/// The store after a record was merged. A record of an unknown experiment
/// founds it; one of an unknown configuration adds the configuration to its
/// experiment; any other appends its outcome to its configuration.
pub open spec fn merge(store: Seq<Filed<ExperimentModel>>, record: RecordModel) -> Seq<
    Filed<ExperimentModel>,
> {
    let e = position_of(store, record.exp_id);
    if e == store.len() {
        store.push(founded(record))
    } else {
        store.update(
            e,
            Filed { id: store[e].id, value: merge_into_experiment(store[e].value, record) },
        )
    }
}

/// What merging a record reports.
pub open spec fn merge_event(store: Seq<Filed<ExperimentModel>>, record: RecordModel)
    -> MergeEvent {
    let e = position_of(store, record.exp_id);
    if e == store.len() {
        MergeEvent::NewExperiment
    } else {
        let configs = store[e].value.configs;
        let c = position_of(configs, record.config_id);
        if c == configs.len() {
            MergeEvent::NewConfiguration
        } else if disagrees(configs[c].value.outcomes, record.config.outcomes[0]) {
            MergeEvent::Doubted
        } else {
            MergeEvent::Appended
        }
    }
}

/// Whether `incoming` disagrees with the recorded outcomes.
fn disagrees_with(recorded: &Vec<SolveInformation>, incoming: &SolveInformation) -> (r: bool)
    ensures
        r == disagrees(recorded@, *incoming),
{
    match incoming {
        SolveInformation::Success(report) => {
            let mut i: usize = 0;
            while i < recorded.len()
                invariant
                    i <= recorded.len(),
                    *incoming == SolveInformation::Success(*report),
                    forall|k: int|
                        0 <= k < i ==> !((#[trigger] recorded@[k]) is Success
                            && recorded@[k]->Success_0.nb_solutions != report.nb_solutions),
                decreases recorded.len() - i,
            {
                match &recorded[i] {
                    SolveInformation::Success(old) => {
                        if old.nb_solutions != report.nb_solutions {
                            return true;
                        }
                    },
                    _ => {},
                }
                i += 1;
            }
            false
        },
        _ => false,
    }
}

/// Merges the record of one run into the store.
pub fn merge_one_experiment(store: &mut ExperimentStore, experiment: ExperimentSingle) -> (event:
    MergeEvent)
    requires
        experiment.config.solve_information@.len() == 1,
    ensures
        final(store)@ == merge(old(store)@, experiment@),
        event == merge_event(old(store)@, experiment@),
        well_formed(old(store)@) ==> well_formed(final(store)@),
{
    let ghost record = experiment@;
    let ghost before = store@;
    proof {
        position_of_is_first(before, record.exp_id);
        if well_formed(before) {
            merge_keeps_well_formed(before, record);
        }
    }
    let ExperimentSingle { model, instance, freq, exp_id, config_id, config } = experiment;
    match find(&store.experiments, exp_id.as_str()) {
        None => {
            let mut configs = Vec::new();
            configs.push(Entry { id: config_id, value: config });
            let entry = Entry {
                id: exp_id,
                value: ExperimentMultiple::new(model, instance, freq, configs),
            };
            assert(entry@.value.configs =~= founded(record).value.configs);
            store.experiments.push(entry);
            assert(store@ =~= merge(before, record));
            MergeEvent::NewExperiment
        },
        Some(e) => {
            let ghost configs_before = before[e as int].value.configs;
            proof {
                position_of_is_first(configs_before, record.config_id);
            }
            match find(&store.experiments[e].value.configs, config_id.as_str()) {
                None => {
                    store.experiments[e].value.configs.push(Entry { id: config_id, value: config });
                    assert(store@[e as int].value.configs =~= merge_into_experiment(
                        before[e as int].value,
                        record,
                    ).configs);
                    assert(store@ =~= merge(before, record));
                    MergeEvent::NewConfiguration
                },
                Some(c) => {
                    let ConfigMultiple { settings, solve_information } = config;
                    let mut arrived = solve_information;
                    let incoming = arrived.pop().unwrap();
                    let doubted = disagrees_with(
                        &store.experiments[e].value.configs[c].value.solve_information,
                        &incoming,
                    );
                    let filed = if doubted {
                        match incoming {
                            SolveInformation::Success(report) => SolveInformation::Doubted(report),
                            other => other,
                        }
                    } else {
                        incoming
                    };
                    store.experiments[e].value.configs[c].value.solve_information.push(filed);
                    assert(store@[e as int].value.configs =~= merge_into_experiment(
                        before[e as int].value,
                        record,
                    ).configs);
                    assert(store@ =~= merge(before, record));
                    if doubted {
                        MergeEvent::Doubted
                    } else {
                        MergeEvent::Appended
                    }
                },
            }
        },
    }
}

/// The store after the records were merged, one after the other.
pub open spec fn merge_all(store: Seq<Filed<ExperimentModel>>, records: Seq<RecordModel>) -> Seq<
    Filed<ExperimentModel>,
>
    decreases records.len(),
{
    if records.len() == 0 {
        store
    } else {
        merge(merge_all(store, records.drop_last()), records.last())
    }
}

/// What merging the records, one after the other, reports.
pub open spec fn merge_events(store: Seq<Filed<ExperimentModel>>, records: Seq<RecordModel>) -> Seq<
    MergeEvent,
>
    decreases records.len(),
{
    if records.len() == 0 {
        seq![]
    } else {
        merge_events(store, records.drop_last()).push(
            merge_event(merge_all(store, records.drop_last()), records.last()),
        )
    }
}

/// The models of the records, in order.
pub open spec fn record_models(records: Seq<ExperimentSingle>) -> Seq<RecordModel> {
    Seq::new(records.len(), |i: int| records[i]@)
}

/// Merges the records of runs into the store, one after the other, and
/// returns what each merge reported.
pub fn merge_mode(store: &mut ExperimentStore, records: Vec<ExperimentSingle>) -> (events: Vec<
    MergeEvent,
>)
    requires
        forall|i: int|
            0 <= i < records@.len()
                ==> (#[trigger] records@[i]).config.solve_information@.len() == 1,
    ensures
        final(store)@ == merge_all(old(store)@, record_models(records@)),
        events@ == merge_events(old(store)@, record_models(records@)),
        well_formed(old(store)@) ==> well_formed(final(store)@),
{
    let ghost before = store@;
    let ghost all = record_models(records@);
    let mut events: Vec<MergeEvent> = Vec::new();
    assert(all.take(0) =~= Seq::empty());
    for record in it: records
        invariant
            it.seq() == records@,
            all == record_models(records@),
            forall|i: int|
                0 <= i < records@.len() ==> (#[trigger] records@[i]).config.solve_information@.len()
                    == 1,
            store@ == merge_all(before, all.take(it.index() as int)),
            events@ == merge_events(before, all.take(it.index() as int)),
            well_formed(before) ==> well_formed(store@),
    {
        proof {
            let k = it.index() as int;
            assert(all.take(k + 1).drop_last() =~= all.take(k));
            assert(all.take(k + 1).last() == record@);
        }
        let event = merge_one_experiment(store, record);
        events.push(event);
    }
    assert(all.take(all.len() as int) =~= all);
    events
}

} // verus!
