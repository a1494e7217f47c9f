//! The decisions of the data-source modes: when the automatic mode falls back to
//! device-plugin data, and how it merges the rows of the two sources.
use vstd::prelude::*;

use crate::aggregate::{aggregate, aggregate_spec, rows_result, NodeRow, NodeRowView};
use crate::aggregate_dra::{aggregate_dra, aggregate_dra_spec, has_driver_slices, has_driver_spec};
use crate::cluster::{ClaimInfo, NodeInfo, PodInfo, SliceInfo};
use crate::error::{AggregateError, AggregateErrorView};
use crate::sorting::{sort_by_key, sort_seq, views};

verus! {

/// How listing the resource slices failed.
#[derive(Clone, Copy, Debug, PartialEq, Eq, Structural)]
pub enum ListFailure {
    /// The API server answered with this status code.
    Api { code: u16 },
    /// No answer, or one that could not be read.
    Other,
}

/// Whether the slices cannot be listed because the cluster has no DRA API or the user may
/// not read it (status 403 or 404): then the automatic mode shows device-plugin data.
pub open spec fn fallback_spec(err: ListFailure) -> bool {
    match err {
        ListFailure::Api { code } => code == 403 || code == 404,
        ListFailure::Other => false,
    }
}

/// Whether a failure to list slices means "show device-plugin data" rather than an error.
pub fn should_fallback_to_device_plugin(err: &ListFailure) -> (r: bool)
    ensures
        r == fallback_spec(*err),
{
    match err {
        ListFailure::Api { code } => *code == 403 || *code == 404,
        ListFailure::Other => false,
    }
}

/// What the automatic mode does once nodes, pods and slices are listed.
#[derive(Debug)]
pub enum AutoStep {
    /// Show every node from device-plugin data.
    DevicePlugin,
    /// Fail: the slices could not be listed.
    Fail(ListFailure),
    /// List the resource claims, then show the nodes of the driver's pools from DRA data
    /// and the others from device-plugin data.
    Dra(Vec<SliceInfo>),
}

/// Decides the automatic mode's next step from the outcome of listing the slices: a
/// forbidden or missing DRA API, or no slice of `driver`, means device-plugin data; any
/// other failure is an error; else DRA data is used where the driver's pools are.
pub fn decide_auto(slices: Result<Vec<SliceInfo>, ListFailure>, driver: &str) -> (r: AutoStep)
    ensures
        match slices {
            Err(f) => if fallback_spec(f) {
                r is DevicePlugin
            } else {
                r == AutoStep::Fail(f)
            },
            Ok(s) => if has_driver_spec(s@, driver@) {
                r matches AutoStep::Dra(t) && t@ == s@
            } else {
                r is DevicePlugin
            },
        },
{
    match slices {
        Err(f) => if should_fallback_to_device_plugin(&f) {
            AutoStep::DevicePlugin
        } else {
            AutoStep::Fail(f)
        },
        Ok(s) => if has_driver_slices(s.as_slice(), driver) {
            AutoStep::Dra(s)
        } else {
            AutoStep::DevicePlugin
        },
    }
}

/// The automatic mode's rows: the DRA rows of `dra_nodes` and the device-plugin rows of
/// `dp_nodes`, together sorted by node name (the DRA error comes first).
pub open spec fn auto_rows_spec(
    dra_nodes: Seq<NodeInfo>,
    dp_nodes: Seq<NodeInfo>,
    pods: Seq<PodInfo>,
    slices: Seq<SliceInfo>,
    claims: Seq<ClaimInfo>,
    driver: Seq<char>,
    include_empty: bool,
) -> Result<Seq<NodeRowView>, AggregateErrorView> {
    match aggregate_dra_spec(dra_nodes, slices, claims, driver, include_empty) {
        Err(e) => Err(e),
        Ok(a) => match aggregate_spec(dp_nodes, pods, include_empty) {
            Err(e) => Err(e),
            Ok(b) => Ok(sort_seq::<NodeRow>(a + b)),
        },
    }
}

/// Builds the automatic mode's table from the nodes split by `partition_nodes`.
pub fn merge_auto_rows(
    dra_nodes: &[NodeInfo],
    dp_nodes: &[NodeInfo],
    pods: &[PodInfo],
    slices: &[SliceInfo],
    claims: &[ClaimInfo],
    driver: &str,
    include_empty: bool,
) -> (r: Result<Vec<NodeRow>, AggregateError>)
    ensures
        rows_result(r) == auto_rows_spec(
            dra_nodes@,
            dp_nodes@,
            pods@,
            slices@,
            claims@,
            driver@,
            include_empty,
        ),
{
    let mut rows = match aggregate_dra(dra_nodes, slices, claims, driver, include_empty) {
        Err(e) => return Err(e),
        Ok(r) => r,
    };
    let mut dp_rows = match aggregate(dp_nodes, pods, include_empty) {
        Err(e) => return Err(e),
        Ok(r) => r,
    };
    let ghost a = views(rows@);
    let ghost b = views(dp_rows@);
    rows.append(&mut dp_rows);
    assert(views(rows@) =~= a + b);
    Ok(sort_by_key(rows))
}

} // verus!
