//! Verified core of a task tracker whose tasks have a value that changes
//! with time.
//!
//! The library holds the rules of the tracker, each with a contract that
//! Verus proves:
//!
//! - [`time`] and [`amount`]: spans of time, and single-precision quantities
//!   carried by their bits;
//! - [`log`]: the completion history of a task, kept in strict order, and the
//!   union of two histories;
//! - [`value`]: the value models, and what a valuation reads from a task;
//! - [`task`] and [`repository`]: tasks and the repository that files them;
//! - [`sync`]: which side wins when a local and a remote copy differ;
//! - [`orchestrator`]: the phases of a synchronisation run;
//! - [`decimal`] and [`utils`]: spans as the user writes and reads them;
//! - [`seqs`]: facts about sequences that several proofs share.
//!
//! The library reads no clock and calls no remote store: times are handed in,
//! and what is to be fetched or sent is handed out. The worth of a task as a
//! number is computed elsewhere, from the [`value::Valuation`] laid out here.

pub mod amount;
pub mod decimal;
pub mod error;
pub mod ident;
pub mod log;
pub mod orchestrator;
pub mod repository;
pub mod seqs;
pub mod sync;
pub mod task;
pub mod time;
pub mod utils;
pub mod value;
