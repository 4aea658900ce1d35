//! Building blocks of a generator for graphs under non-linear preferential
//! attachment: edge sinks and degree statistics, the shared proposal list of
//! the parallel sampler with its compaction, the degree and replica counts
//! of the nodes, the epoch bounds of the run-length sampler, the per-epoch
//! bookkeeping of the workers, progress reports, the growth regime of the
//! weight function, and the start-up configuration.

pub mod edge_writer;
pub mod epoch;
pub mod node_table;
pub mod parameters;
pub mod proposal_list;
pub mod reports;
pub mod run_length;
pub mod weight_function;
pub mod wrappers;

use vstd::prelude::*;

verus! {

/// Index of a node of the generated graph.
pub type Node = usize;

/// An undirected edge between two nodes.
pub type Edge = (Node, Node);

} // verus!
