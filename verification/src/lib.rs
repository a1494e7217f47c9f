//! Aggregation of `furiosa.ai/rngd` device allocation across cluster nodes.
use vstd::prelude::*;

pub mod aggregate;
pub mod aggregate_dra;
pub mod auto_properties;
pub mod cli;
pub mod cluster;
pub mod dra_counts;
pub mod dra_devices;
pub mod dra_names;
pub mod dra_pods;
pub mod dra_properties;
pub mod dra_totals;
pub mod error;
pub mod invariance;
pub mod pipeline;
pub mod pod_count;
pub mod properties;
pub mod render;
pub mod search;
pub mod sorting;
pub mod table_properties;
pub mod text;

verus! {

/// The extended resource whose allocation is shown.
pub const RNGD_RESOURCE: &'static str = "furiosa.ai/rngd";

/// The DRA driver whose devices are shown by default.
pub const DEFAULT_DRA_DRIVER: &'static str = "npu.furiosa.ai";

} // verus!
