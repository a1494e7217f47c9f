//! The options of the command: where the cluster is, which nodes to list, and which data
//! source to read.
use vstd::prelude::*;

verus! {

/// Which data the allocation is read from.
#[derive(Clone, Copy, Debug, PartialEq, Eq, Structural)]
pub enum Source {
    /// Each node from DRA data where its driver publishes slices, else from device-plugin
    /// data.
    Auto,
    /// Node capacities and container limits.
    DevicePlugin,
    /// Resource slices and resource claims.
    Dra,
}

impl Default for Source {
    /// `Auto`.
    fn default() -> (r: Source)
        ensures
            r == Source::Auto,
    {
        Source::Auto
    }
}

/// The options of the command.
#[derive(Debug)]
pub struct Args {
    /// Path to a kubeconfig file; inferred when absent.
    pub kubeconfig: Option<String>,
    /// Kube context to use; the current one when absent.
    pub context: Option<String>,
    /// Also list nodes without `furiosa.ai/rngd` capacity.
    pub include_empty: bool,
    /// Which data to read.
    pub source: Source,
    /// The DRA driver whose devices are shown.
    pub driver: String,
    /// Debug logging to stderr.
    pub verbose: bool,
}

} // verus!
