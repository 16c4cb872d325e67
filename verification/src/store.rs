use crate::number::Double;
use crate::outcome::SolveInformation;
use vstd::prelude::*;
use vstd::string::StringExecFns;

verus! {

/// How a configuration runs the solver.
#[derive(Clone, Debug, PartialEq, Eq)]
pub struct ConfigSettings {
    pub preprocess: String,
    pub representation: String,
    pub solver: String,
    pub incomparability: bool,
    pub interactive: bool,
    pub native: bool,
    pub compressed: bool,
    pub ordered: bool,
    pub no_solution_blocking: bool,
    pub mdd: bool,
    pub cgroups: bool,
}

/// One configuration of an experiment: its settings and the outcomes of its
/// runs, in the order in which they arrived.
#[derive(Clone, Debug, PartialEq, Eq)]
pub struct ConfigMultiple {
    pub settings: ConfigSettings,
    pub solve_information: Vec<SolveInformation>,
}

/// A record of one run: the experiment and the configuration it belongs
/// to, and a configuration that holds the single outcome of the run.
#[derive(Clone, Debug, PartialEq, Eq)]
pub struct ExperimentSingle {
    pub model: String,
    pub instance: String,
    pub freq: Double,
    pub exp_id: String,
    pub config_id: String,
    pub config: ConfigMultiple,
}

/// A value filed under an identifier.
#[derive(Clone, Debug, PartialEq, Eq)]
pub struct Entry<V> {
    pub id: String,
    pub value: V,
}

/// An experiment: what it studies, and its configurations by identifier, in
/// the order in which they were first seen.
#[derive(Clone, Debug, PartialEq, Eq)]
pub struct ExperimentMultiple {
    pub model: String,
    pub instance: String,
    pub freq: Double,
    pub configs: Vec<Entry<ConfigMultiple>>,
}

/// The experiments by identifier, in the order in which they were first
/// seen.
#[derive(Clone, Debug, PartialEq, Eq)]
pub struct ExperimentStore {
    pub experiments: Vec<Entry<ExperimentMultiple>>,
}

/// The model of an `Entry`: the identifier's text and the value's model.
pub struct Filed<M> {
    pub id: Seq<char>,
    pub value: M,
}

/// The model of a configuration.
pub struct ConfigModel {
    pub settings: ConfigSettings,
    pub outcomes: Seq<SolveInformation>,
}

/// The model of an experiment.
pub struct ExperimentModel {
    pub model: String,
    pub instance: String,
    pub freq: Double,
    pub configs: Seq<Filed<ConfigModel>>,
}

/// The model of a run record.
pub struct RecordModel {
    pub model: String,
    pub instance: String,
    pub freq: Double,
    pub exp_id: Seq<char>,
    pub config_id: Seq<char>,
    pub config: ConfigModel,
}

impl View for ConfigMultiple {
    type V = ConfigModel;

    open spec fn view(&self) -> ConfigModel {
        ConfigModel { settings: self.settings, outcomes: self.solve_information@ }
    }
}

impl<V: View> View for Entry<V> {
    type V = Filed<V::V>;

    open spec fn view(&self) -> Filed<V::V> {
        Filed { id: self.id@, value: self.value@ }
    }
}

/// The models of a sequence of entries, in the same order.
pub open spec fn models<V: View>(entries: Seq<Entry<V>>) -> Seq<Filed<V::V>> {
    Seq::new(entries.len(), |i: int| entries[i]@)
}

impl View for ExperimentMultiple {
    type V = ExperimentModel;

    open spec fn view(&self) -> ExperimentModel {
        ExperimentModel {
            model: self.model,
            instance: self.instance,
            freq: self.freq,
            configs: models(self.configs@),
        }
    }
}

impl View for ExperimentSingle {
    type V = RecordModel;

    open spec fn view(&self) -> RecordModel {
        RecordModel {
            model: self.model,
            instance: self.instance,
            freq: self.freq,
            exp_id: self.exp_id@,
            config_id: self.config_id@,
            config: self.config@,
        }
    }
}

impl View for ExperimentStore {
    type V = Seq<Filed<ExperimentModel>>;

    open spec fn view(&self) -> Seq<Filed<ExperimentModel>> {
        models(self.experiments@)
    }
}

/// Whether some entry is filed under `id`.
pub open spec fn has_id<M>(entries: Seq<Filed<M>>, id: Seq<char>) -> bool {
    exists|i: int| 0 <= i < entries.len() && (#[trigger] entries[i]).id == id
}

/// The position of the first entry filed under `id`; the number of entries
/// if there is none.
pub open spec fn position_of<M>(entries: Seq<Filed<M>>, id: Seq<char>) -> int
    decreases entries.len(),
{
    if entries.len() == 0 {
        0
    } else if entries[0].id == id {
        0
    } else {
        1 + position_of(entries.subrange(1, entries.len() as int), id)
    }
}

/// No two entries are filed under the same identifier.
pub open spec fn distinct_ids<M>(entries: Seq<Filed<M>>) -> bool {
    forall|i: int, j: int|
        0 <= i < j < entries.len() ==> (#[trigger] entries[i]).id != (#[trigger] entries[j]).id
}

/// No two experiments of a store share an identifier, and within an
/// experiment no two configurations do.
pub open spec fn well_formed(store: Seq<Filed<ExperimentModel>>) -> bool {
    &&& distinct_ids(store)
    &&& forall|i: int| 0 <= i < store.len() ==> distinct_ids((#[trigger] store[i]).value.configs)
}

/// `position_of` is the first position under `id`, and is in range exactly
/// when an entry is filed under `id`.
pub proof fn position_of_is_first<M>(entries: Seq<Filed<M>>, id: Seq<char>)
    ensures
        0 <= position_of(entries, id) <= entries.len(),
        position_of(entries, id) < entries.len() <==> has_id(entries, id),
        position_of(entries, id) < entries.len() ==> entries[position_of(entries, id)].id == id,
        forall|k: int| 0 <= k < position_of(entries, id) ==> (#[trigger] entries[k]).id != id,
    decreases entries.len(),
{
    if entries.len() == 0 {
    } else if entries[0].id == id {
    } else {
        let rest = entries.subrange(1, entries.len() as int);
        position_of_is_first(rest, id);
        let p = position_of(rest, id);
        assert forall|k: int| 0 <= k < 1 + p implies (#[trigger] entries[k]).id != id by {
            if k > 0 {
                assert(rest[k - 1] == entries[k]);
            }
        }
        if p < rest.len() {
            assert(rest[p] == entries[p + 1]);
        }
        if has_id(entries, id) {
            let i = choose|i: int| 0 <= i < entries.len() && (#[trigger] entries[i]).id == id;
            assert(rest[i - 1] == entries[i]);
        }
    }
}

/// A position that holds `id` with no earlier entry under `id`, or the
/// length where no entry is under `id`, is `position_of`.
pub proof fn first_is_position_of<M>(entries: Seq<Filed<M>>, id: Seq<char>, p: int)
    requires
        0 <= p <= entries.len(),
        p < entries.len() ==> entries[p].id == id,
        forall|k: int| 0 <= k < p ==> (#[trigger] entries[k]).id != id,
    ensures
        position_of(entries, id) == p,
{
    position_of_is_first(entries, id);
    let q = position_of(entries, id);
    if q < p {
        assert(entries[q].id != id);
    }
}

/// Where no identifier stands twice, an entry is found where it stands.
pub proof fn found_where_filed<M>(entries: Seq<Filed<M>>, i: int)
    requires
        distinct_ids(entries),
        0 <= i < entries.len(),
    ensures
        position_of(entries, entries[i].id) == i,
{
    assert forall|k: int| 0 <= k < i implies (#[trigger] entries[k]).id != entries[i].id by {}
    first_is_position_of(entries, entries[i].id, i);
}

/// The position of the first entry filed under `id`, if there is one.
pub fn find<V: View>(entries: &Vec<Entry<V>>, id: &str) -> (r: Option<usize>)
    ensures
        r is Some <==> has_id(models(entries@), id@),
        r is Some ==> r->0 == position_of(models(entries@), id@),
        r is Some ==> r->0 < entries@.len(),
{
    let key = String::from_str(id);
    let mut i: usize = 0;
    while i < entries.len()
        invariant
            i <= entries.len(),
            key@ == id@,
            forall|k: int| 0 <= k < i ==> (#[trigger] models(entries@)[k]).id != id@,
        decreases entries.len() - i,
    {
        if entries[i].id == key {
            proof {
                first_is_position_of(models(entries@), id@, i as int);
                position_of_is_first(models(entries@), id@);
            }
            return Some(i);
        }
        i += 1;
    }
    proof {
        first_is_position_of(models(entries@), id@, i as int);
        position_of_is_first(models(entries@), id@);
    }
    None
}

/// Whether no two of the entries are filed under the same identifier.
pub fn has_distinct_ids<V: View>(entries: &Vec<Entry<V>>) -> (r: bool)
    ensures
        r == distinct_ids(models(entries@)),
{
    let ghost ms = models(entries@);
    let mut j: usize = 0;
    while j < entries.len()
        invariant
            j <= entries.len(),
            ms == models(entries@),
            forall|a: int, b: int| 0 <= a < b < j
                ==> (#[trigger] ms[a]).id != (#[trigger] ms[b]).id,
        decreases entries.len() - j,
    {
        let mut i: usize = 0;
        while i < j
            invariant
                i <= j < entries.len(),
                ms == models(entries@),
                forall|a: int| 0 <= a < i ==> (#[trigger] ms[a]).id != ms[j as int].id,
            decreases j - i,
        {
            if entries[i].id == entries[j].id {
                assert(ms[i as int].id == ms[j as int].id);
                return false;
            }
            i += 1;
        }
        j += 1;
    }
    true
}

impl ExperimentMultiple {
    /// An experiment with the given description and configurations.
    pub fn new(
        model: String,
        instance: String,
        freq: Double,
        configs: Vec<Entry<ConfigMultiple>>,
    ) -> (r: ExperimentMultiple)
        ensures
            r == (ExperimentMultiple { model, instance, freq, configs }),
    {
        ExperimentMultiple { model, instance, freq, configs }
    }
}

impl ExperimentStore {
    /// A store without experiments.
    pub fn new() -> (r: ExperimentStore)
        ensures
            r@ == Seq::<Filed<ExperimentModel>>::empty(),
            well_formed(r@),
    {
        let r = ExperimentStore { experiments: Vec::new() };
        assert(r@ =~= Seq::<Filed<ExperimentModel>>::empty());
        r
    }

    /// Whether no two experiments of the store share an identifier, and
    /// within an experiment no two configurations do. A new store is so,
    /// and merging and reconciliation keep a store so.
    pub fn is_well_formed(&self) -> (r: bool)
        ensures
            r == well_formed(self@),
    {
        if !has_distinct_ids(&self.experiments) {
            return false;
        }
        let mut i: usize = 0;
        while i < self.experiments.len()
            invariant
                i <= self.experiments.len(),
                distinct_ids(self@),
                forall|x: int| 0 <= x < i ==> distinct_ids((#[trigger] self@[x]).value.configs),
            decreases self.experiments.len() - i,
        {
            assert(self@[i as int].value.configs
                == models(self.experiments@[i as int].value.configs@));
            if !has_distinct_ids(&self.experiments[i].value.configs) {
                return false;
            }
            i += 1;
        }
        true
    }
}

} // verus!
