use crate::number::Double;
use vstd::prelude::*;

verus! {

/// Per-level measurements of one successful run, each keyed by the level's
/// name.
#[derive(Clone, Debug, PartialEq, Eq)]
pub struct LevelInformation {
    /// The time of the solver on each level.
    pub solver_time: Option<Vec<(String, Double)>>,
    /// The nodes searched on each level.
    pub nodes: Option<Vec<(String, u64)>>,
    /// The solutions found up to each level.
    pub cumulative_nb_solutions: Option<Vec<(String, u64)>>,
    /// The variables of the encoding of each level.
    pub nb_vars: Option<Vec<(String, u64)>>,
    /// The clauses of the encoding of each level.
    pub nb_clauses: Option<Vec<(String, u64)>>,
    /// The clauses learnt on each level.
    pub nb_learnt_clauses: Option<Vec<(String, u64)>>,
}

/// What a completed run measured. `Success` and `Doubted` outcomes carry
/// the same report.
#[derive(Clone, Debug, PartialEq, Eq)]
pub struct SolveReport {
    /// The time of the solver alone.
    pub total_solver_time: Double,
    /// The outer time of the run, the solver's included.
    pub total_sr_time: Double,
    /// The nodes that the solver searched, where it says.
    pub total_nodes: Option<u64>,
    /// The number of solutions that the run found.
    pub nb_solutions: u64,
    /// The seed of the run.
    pub seed: Option<Double>,
    /// The memory that the run was allowed.
    pub memory_limit: u64,
    /// The time that the run was allowed.
    pub time_limit: u64,
    /// The machine that ran it.
    pub machine_info: String,
    /// What was measured level by level.
    pub level_info: LevelInformation,
    /// The number of frequent solutions, in records that hold it.
    pub freq_nb_solutions: Option<u64>,
}

/// The outcome of one run of a configuration.
#[allow(inconsistent_fields)]
#[derive(Clone, Debug, PartialEq, Eq)]
pub enum SolveInformation {
    /// The run completed and reported a number of solutions.
    Success(SolveReport),
    /// A completed run whose number of solutions disagreed with an earlier
    /// success of the same configuration.
    Doubted(SolveReport),
    /// The run used up its time.
    Timeout { seed: Option<Double>, memory_limit: u64, time_limit: u64, machine_info: String },
    /// The run used up its memory.
    Memout {
        seed: Option<Double>,
        memory_limit: u64,
        time_limit: u64,
        machine_info: String,
        crash_time: Double,
    },
    /// The run ended abnormally, or was a success that lost the vote on the
    /// number of solutions.
    Crash {
        seed: Option<Double>,
        memory_limit: u64,
        time_limit: Option<u64>,
        machine_info: String,
        crash_time: Double,
    },
}

impl SolveInformation {
    /// Whether this outcome has a say on the number of solutions: successes
    /// and doubted runs do.
    pub open spec fn votes(self) -> bool {
        self is Success || self is Doubted
    }

    /// The number of solutions a voting outcome reports.
    pub open spec fn reported(self) -> u64 {
        match self {
            SolveInformation::Success(report) => report.nb_solutions,
            SolveInformation::Doubted(report) => report.nb_solutions,
            _ => 0,
        }
    }

    /// The number of solutions this outcome votes for, if it votes.
    pub fn vote(&self) -> (r: Option<u64>)
        ensures
            r is Some <==> self.votes(),
            r is Some ==> r->0 == self.reported(),
    {
        match self {
            SolveInformation::Success(report) => Some(report.nb_solutions),
            SolveInformation::Doubted(report) => Some(report.nb_solutions),
            _ => None,
        }
    }
}

} // verus!
