//! Bookkeeping for repeated solver-benchmark runs: a store of run outcomes
//! per experiment and configuration, the rules for merging new records into
//! it, for settling runs that disagree on the number of solutions, and for
//! answering best-time queries on the store or on rows of its relational
//! mirror.
//!
//! The store and its rules:
//! - `outcome`, `store`: the outcomes of runs, and the store that files
//!   them by experiment and configuration, with its model.
//! - `merge`: merging the record of one run into the store.
//! - `doubts`: the vote on the number of solutions of an experiment, and
//!   the reconciliation of the store under it.
//! - `best`, `query`: the best of a configuration, the best over the
//!   configurations of an experiment, and the queries on the store.
//! - `mirror`: the rows of the relational mirror, and the queries on rows.
//! - `merge_laws`, `doubts_laws`, `best_laws`, `mirror_laws`: what holds of
//!   these rules, proved.
//!
//! Around them:
//! - `number`: doubles as ordered bit patterns; `sort`: putting values in
//!   order; `text`: searching and cutting texts.
//! - `plot`, `table`, `csvtext`: the summaries for plots and the tables of
//!   the store, and their CSV text.
//! - `dbconfig`: the configuration of the mirror and the policy for
//!   reaching it; `files`: the names of dump files; `compression`: texts as
//!   zstd frames.

pub mod best;
pub mod best_laws;
pub mod compression;
pub mod csvtext;
pub mod dbconfig;
pub mod doubts;
pub mod doubts_laws;
pub mod files;
pub mod merge;
pub mod merge_laws;
pub mod mirror;
pub mod mirror_laws;
pub mod number;
pub mod outcome;
pub mod plot;
pub mod query;
pub mod sort;
pub mod store;
pub mod table;
pub mod text;
