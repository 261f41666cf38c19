use vstd::prelude::*;

verus! {

/// One pairwise-distance record handed over by the ingestion layer.
pub struct DatasetEdge {
    pub from_city: String,
    pub from_country: String,
    pub to_city: String,
    pub to_country: String,
    pub distance: u32,
}

/// Pipeline stage selector.
#[derive(Clone, Copy, Debug, PartialEq, Eq, Structural)]
pub enum Task {
    BuildGraph,
    BuildMst,
    FindBestPath,
}

/// Execution strategy for the permutation search.
#[derive(Clone, Copy, Debug, PartialEq, Eq, Structural)]
pub enum Algorithm {
    Serial,
    Parallel,
}

/// Invocation parameters, as plain values: which stage to run, how to run the
/// search, how many workers the parallel path may use, and an optional target
/// location list.
pub struct Args {
    pub task: Task,
    pub algorithm: Option<Algorithm>,
    pub num_threads: Option<usize>,
    pub cities: Option<Vec<String>>,
}

} // verus!
