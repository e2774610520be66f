//! The settings that a run is started with.

use vstd::prelude::*;

verus! {

/// The settings: the word that selects each command, where the log lies, how many
/// cycles a run makes, and how long it rests between two cycles.
#[derive(Clone, Debug)]
pub struct Config {
    pub command_run: String,
    pub command_show: String,
    pub command_cls: String,
    pub command_help: String,
    pub command_metric: String,
    pub filepath: String,
    pub iteration: u32,
    /// Seconds between two cycles; `None` where the run does not rest.
    pub interval: Option<u64>,
}

} // verus!
