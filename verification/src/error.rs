//! Why an aggregation fails.
use vstd::prelude::*;

use crate::text::IntErrorKind;

verus! {

/// Why an aggregation fails.
#[derive(Debug)]
pub enum AggregateError {
    /// A node has no `metadata.name`.
    NodeWithoutName,
    /// A `furiosa.ai/rngd` quantity is not a decimal integer.
    InvalidQuantity { raw: String, kind: IntErrorKind },
    /// The `furiosa.ai/rngd` limits of one pod's containers sum past `i64`.
    PodSumOverflow,
    /// The counts of the pods on one node sum past `i64`.
    NodeSumOverflow,
    /// The DRA capacity of one node sums past `i64`.
    DraCapacityOverflow,
    /// The DRA device count of one pod on one node sums past `i64`.
    DraPodCountOverflow,
    /// The number of distinct allocated devices on one node exceeds `i64`.
    DraAllocatedOverflow,
    /// One resource slice holds more devices than `i64` counts.
    DraSliceDeviceCountOverflow,
    /// The capacity of one DRA pool sums past `i64`.
    DraPoolCapacityOverflow,
}

/// An `AggregateError` with its text as a character sequence.
pub enum AggregateErrorView {
    NodeWithoutName,
    InvalidQuantity { raw: Seq<char>, kind: IntErrorKind },
    PodSumOverflow,
    NodeSumOverflow,
    DraCapacityOverflow,
    DraPodCountOverflow,
    DraAllocatedOverflow,
    DraSliceDeviceCountOverflow,
    DraPoolCapacityOverflow,
}

impl View for AggregateError {
    type V = AggregateErrorView;

    open spec fn view(&self) -> AggregateErrorView {
        match self {
            AggregateError::NodeWithoutName => AggregateErrorView::NodeWithoutName,
            AggregateError::InvalidQuantity { raw, kind } => AggregateErrorView::InvalidQuantity {
                raw: raw@,
                kind: *kind,
            },
            AggregateError::PodSumOverflow => AggregateErrorView::PodSumOverflow,
            AggregateError::NodeSumOverflow => AggregateErrorView::NodeSumOverflow,
            AggregateError::DraCapacityOverflow => AggregateErrorView::DraCapacityOverflow,
            AggregateError::DraPodCountOverflow => AggregateErrorView::DraPodCountOverflow,
            AggregateError::DraAllocatedOverflow => AggregateErrorView::DraAllocatedOverflow,
            AggregateError::DraSliceDeviceCountOverflow => {
                AggregateErrorView::DraSliceDeviceCountOverflow
            },
            AggregateError::DraPoolCapacityOverflow => AggregateErrorView::DraPoolCapacityOverflow,
        }
    }
}

/// The text that Rust's `Debug` formatting gives for a string: quoted, with escapes.
pub uninterp spec fn debug_quoted(s: Seq<char>) -> Seq<char>;

/// `s` as Rust's `Debug` formatting writes it (`format!("{:?}", s)`).
#[verifier::external_body]
fn quoted(s: &str) -> (r: String)
    ensures
        r@ == debug_quoted(s@),
{
    format!("{:?}", s)
}

/// The message of an error, as a character sequence.
pub open spec fn error_message(e: AggregateErrorView) -> Seq<char> {
    match e {
        AggregateErrorView::NodeWithoutName => "node without metadata.name"@,
        AggregateErrorView::InvalidQuantity { raw, kind } => "failed to parse furiosa.ai/rngd quantity "@
            + debug_quoted(raw) + " as integer: "@ + kind.spec_text(),
        AggregateErrorView::PodSumOverflow => "rngd sum overflow on pod"@,
        AggregateErrorView::NodeSumOverflow => "rngd allocated sum overflow on node"@,
        AggregateErrorView::DraCapacityOverflow => "DRA capacity sum overflow on node"@,
        AggregateErrorView::DraPodCountOverflow => "DRA pod count overflow on node"@,
        AggregateErrorView::DraAllocatedOverflow => "DRA allocated device count overflow on node"@,
        AggregateErrorView::DraSliceDeviceCountOverflow => "DRA slice device count overflow"@,
        AggregateErrorView::DraPoolCapacityOverflow => "DRA pool capacity overflow"@,
    }
}

impl AggregateError {
    /// The error's message.
    pub fn message(&self) -> (r: String)
        ensures
            r@ == error_message(self@),
    {
        match self {
            AggregateError::NodeWithoutName => String::from_str("node without metadata.name"),
            AggregateError::InvalidQuantity { raw, kind } => {
                let mut m = String::from_str("failed to parse furiosa.ai/rngd quantity ");
                let q = quoted(raw.as_str());
                m.append(q.as_str());
                m.append(" as integer: ");
                m.append(kind.text());
                m
            },
            AggregateError::PodSumOverflow => String::from_str("rngd sum overflow on pod"),
            AggregateError::NodeSumOverflow => String::from_str(
                "rngd allocated sum overflow on node",
            ),
            AggregateError::DraCapacityOverflow => String::from_str(
                "DRA capacity sum overflow on node",
            ),
            AggregateError::DraPodCountOverflow => String::from_str(
                "DRA pod count overflow on node",
            ),
            AggregateError::DraAllocatedOverflow => String::from_str(
                "DRA allocated device count overflow on node",
            ),
            AggregateError::DraSliceDeviceCountOverflow => String::from_str(
                "DRA slice device count overflow",
            ),
            AggregateError::DraPoolCapacityOverflow => String::from_str(
                "DRA pool capacity overflow",
            ),
        }
    }
}

} // verus!
