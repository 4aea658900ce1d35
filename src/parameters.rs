//! The start-up configuration: the algorithm selector and the checks on
//! the node counts that the command line gives.

use crate::wrappers::{lower_of, lowercase};
use vstd::prelude::*;
use vstd::string::StringExecFns;

verus! {

/// The sampler that generates the graph.
#[derive(Eq, Clone, Copy, PartialEq, Debug, Structural)]
pub enum SamplingAlgorithm {
    DynWeightIndex,
    PolyPA,
    PolyPAPrefetch,
    ParallelPolyPa,
}

/// The algorithm that a lower-case name selects, if any.
pub open spec fn algorithm_named(name: Seq<char>) -> Option<SamplingAlgorithm> {
    if name == "dyn"@ {
        Some(SamplingAlgorithm::DynWeightIndex)
    } else if name == "polypa"@ {
        Some(SamplingAlgorithm::PolyPA)
    } else if name == "polypa-prefetch"@ {
        Some(SamplingAlgorithm::PolyPAPrefetch)
    } else if name == "par-polypa"@ {
        Some(SamplingAlgorithm::ParallelPolyPa)
    } else {
        None
    }
}

/// The message for a name that selects no algorithm.
pub open spec fn unknown_algorithm_message(s: Seq<char>) -> Seq<char> {
    "Unknown algorithm type: "@ + s
}

impl SamplingAlgorithm {
    /// The algorithm that the lower-case `name` selects.
    pub fn from_lowercase(name: &str) -> (r: Option<SamplingAlgorithm>)
        ensures
            r == algorithm_named(name@),
    {
        let name = String::from_str(name);
        if name == String::from_str("dyn") {
            Some(SamplingAlgorithm::DynWeightIndex)
        } else if name == String::from_str("polypa") {
            Some(SamplingAlgorithm::PolyPA)
        } else if name == String::from_str("polypa-prefetch") {
            Some(SamplingAlgorithm::PolyPAPrefetch)
        } else if name == String::from_str("par-polypa") {
            Some(SamplingAlgorithm::ParallelPolyPa)
        } else {
            None
        }
    }

    /// The algorithm that `s` names, in any case, or the message that it
    /// names none.
    pub fn parse(s: &str) -> (r: Result<SamplingAlgorithm, String>)
        ensures
            algorithm_named(lower_of(s@)) matches Some(a) ==> r == Ok::<_, String>(a),
            algorithm_named(lower_of(s@)) is None ==> (r matches Err(msg) && msg@
                == unknown_algorithm_message(s@)),
    {
        let lower = lowercase(s);
        match SamplingAlgorithm::from_lowercase(lower.as_str()) {
            Some(a) => Ok(a),
            None => {
                let msg = String::from_str("Unknown algorithm type: ");
                let msg = msg.concat(s);
                Err(msg)
            },
        }
    }
}

impl std::str::FromStr for SamplingAlgorithm {
    type Err = String;

    fn from_str(s: &str) -> Result<Self, Self::Err> {
        SamplingAlgorithm::parse(s)
    }
}

/// Why the node counts of a configuration were refused.
#[derive(Clone, Copy, Debug, PartialEq, Eq, Structural)]
pub enum ConfigError {
    /// Every new node needs at least one host.
    InitialDegreeZero,
    /// The seed graph has fewer nodes than a new node has hosts.
    TooFewSeedNodes,
    /// The seed graph of unit degrees needs an even number of nodes.
    OddSeedNodes,
    /// No worker thread was asked for.
    NoThreads,
}

/// The seed node count that a configuration uses: the one given, or ten
/// times the initial degree.
pub open spec fn seed_nodes_of(initial_degree: usize, seed_nodes: Option<usize>) -> int {
    match seed_nodes {
        Some(n) => n as int,
        None => initial_degree * 10,
    }
}

/// Checks the node counts of a configuration, in the order the command
/// line is checked, and returns the number of seed nodes to use.
pub fn check_options(
    initial_degree: usize,
    seed_nodes: Option<usize>,
    num_threads: Option<usize>,
) -> (r: Result<usize, ConfigError>)
    requires
        seed_nodes is None ==> initial_degree * 10 <= usize::MAX,
    ensures
        ({
            let n = seed_nodes_of(initial_degree, seed_nodes);
            if initial_degree == 0 {
                r == Err::<usize, _>(ConfigError::InitialDegreeZero)
            } else if n < initial_degree {
                r == Err::<usize, _>(ConfigError::TooFewSeedNodes)
            } else if n % 2 != 0 {
                r == Err::<usize, _>(ConfigError::OddSeedNodes)
            } else if num_threads == Some(0usize) {
                r == Err::<usize, _>(ConfigError::NoThreads)
            } else {
                r == Ok::<usize, ConfigError>(n as usize)
            }
        }),
{
    if initial_degree == 0 {
        return Err(ConfigError::InitialDegreeZero);
    }
    let n = match seed_nodes {
        Some(n) => n,
        None => initial_degree * 10,
    };
    if n < initial_degree {
        return Err(ConfigError::TooFewSeedNodes);
    }
    if n % 2 != 0 {
        return Err(ConfigError::OddSeedNodes);
    }
    match num_threads {
        Some(t) => if t == 0 {
            return Err(ConfigError::NoThreads);
        },
        None => {},
    }
    Ok(n)
}

} // verus!
