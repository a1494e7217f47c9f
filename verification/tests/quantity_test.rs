use kubectl_view_rngd::aggregate::{aggregate, parse_int_quantity, sum_pod_rngd};
use kubectl_view_rngd::aggregate_dra::{aggregate_dra, partition_nodes};
use kubectl_view_rngd::cluster::{ContainerInfo, NodeInfo, PodInfo, PodSpecInfo};
use kubectl_view_rngd::error::AggregateError;
use kubectl_view_rngd::text::IntErrorKind;

fn rngd_node(name: &str, cap: &str) -> NodeInfo {
    NodeInfo {
        name: Some(name.to_string()),
        capacity: vec![("furiosa.ai/rngd".to_string(), cap.to_string())],
    }
}

fn running_pod(name: &str, node: &str, limits: &[&str]) -> PodInfo {
    PodInfo {
        namespace: Some("ns".to_string()),
        name: Some(name.to_string()),
        spec: Some(PodSpecInfo {
            node_name: Some(node.to_string()),
            containers: limits
                .iter()
                .map(|l| ContainerInfo {
                    limits: vec![("furiosa.ai/rngd".to_string(), l.to_string())],
                })
                .collect(),
        }),
        phase: Some("Running".to_string()),
    }
}

fn kind_of(r: Result<i64, AggregateError>) -> IntErrorKind {
    match r {
        Err(AggregateError::InvalidQuantity { kind, .. }) => kind,
        other => panic!("expected an invalid quantity, got {other:?}"),
    }
}

#[test]
fn quantity_plain_and_signed_values() {
    assert_eq!(parse_int_quantity("8").unwrap(), 8);
    assert_eq!(parse_int_quantity("+4").unwrap(), 4);
    assert_eq!(parse_int_quantity("-3").unwrap(), -3);
    assert_eq!(parse_int_quantity("007").unwrap(), 7);
}

#[test]
fn quantity_surrounding_white_space_is_trimmed() {
    assert_eq!(parse_int_quantity(" 8\n").unwrap(), 8);
    assert_eq!(parse_int_quantity("\t12 ").unwrap(), 12);
}

#[test]
fn quantity_limits_of_i64() {
    assert_eq!(parse_int_quantity("9223372036854775807").unwrap(), i64::MAX);
    assert_eq!(parse_int_quantity("-9223372036854775808").unwrap(), i64::MIN);
    assert_eq!(kind_of(parse_int_quantity("9223372036854775808")), IntErrorKind::PosOverflow);
    assert_eq!(kind_of(parse_int_quantity("-9223372036854775809")), IntErrorKind::NegOverflow);
}

#[test]
fn quantity_error_kinds() {
    assert_eq!(kind_of(parse_int_quantity("")), IntErrorKind::Empty);
    assert_eq!(kind_of(parse_int_quantity("   ")), IntErrorKind::Empty);
    assert_eq!(kind_of(parse_int_quantity("+")), IntErrorKind::InvalidDigit);
    assert_eq!(kind_of(parse_int_quantity("-")), IntErrorKind::InvalidDigit);
    assert_eq!(kind_of(parse_int_quantity("4Gi")), IntErrorKind::InvalidDigit);
    assert_eq!(kind_of(parse_int_quantity("1 2")), IntErrorKind::InvalidDigit);
}

#[test]
fn invalid_quantity_keeps_raw_text_and_quotes_it() {
    let err = parse_int_quantity(" x ").unwrap_err();
    match &err {
        AggregateError::InvalidQuantity { raw, kind } => {
            assert_eq!(raw, " x ");
            assert_eq!(*kind, IntErrorKind::InvalidDigit);
        }
        other => panic!("unexpected {other:?}"),
    }
    assert_eq!(
        err.message(),
        "failed to parse furiosa.ai/rngd quantity \" x \" as integer: invalid digit found in string"
    );
}

#[test]
fn invalid_quantity_message_escapes_quotes() {
    let err = parse_int_quantity("a\"b").unwrap_err();
    assert_eq!(
        err.message(),
        "failed to parse furiosa.ai/rngd quantity \"a\\\"b\" as integer: invalid digit found in string"
    );
}

#[test]
fn every_error_message() {
    let cases = [
        (AggregateError::NodeWithoutName, "node without metadata.name"),
        (AggregateError::PodSumOverflow, "rngd sum overflow on pod"),
        (AggregateError::NodeSumOverflow, "rngd allocated sum overflow on node"),
        (AggregateError::DraCapacityOverflow, "DRA capacity sum overflow on node"),
        (AggregateError::DraPodCountOverflow, "DRA pod count overflow on node"),
        (AggregateError::DraAllocatedOverflow, "DRA allocated device count overflow on node"),
        (AggregateError::DraSliceDeviceCountOverflow, "DRA slice device count overflow"),
        (AggregateError::DraPoolCapacityOverflow, "DRA pool capacity overflow"),
    ];
    for (err, text) in cases {
        assert_eq!(err.message(), text);
    }
    let empty = AggregateError::InvalidQuantity { raw: String::new(), kind: IntErrorKind::Empty };
    assert_eq!(
        empty.message(),
        "failed to parse furiosa.ai/rngd quantity \"\" as integer: cannot parse integer from empty string"
    );
    let big = AggregateError::InvalidQuantity { raw: "9".repeat(20), kind: IntErrorKind::PosOverflow };
    assert!(big.message().ends_with("number too large to fit in target type"));
    let small = AggregateError::InvalidQuantity { raw: "-9".repeat(1), kind: IntErrorKind::NegOverflow };
    assert!(small.message().ends_with("number too small to fit in target type"));
}

#[test]
fn node_without_name_fails_each_aggregation() {
    let nodes = vec![rngd_node("a", "4"), NodeInfo { name: None, capacity: vec![] }];
    assert!(matches!(aggregate(&nodes, &[], false), Err(AggregateError::NodeWithoutName)));
    assert!(matches!(
        aggregate_dra(&nodes, &[], &[], "npu.furiosa.ai", false),
        Err(AggregateError::NodeWithoutName)
    ));
    assert!(matches!(
        partition_nodes(&nodes, &[], "npu.furiosa.ai"),
        Err(AggregateError::NodeWithoutName)
    ));
}

#[test]
fn pod_limits_summing_past_i64_fail() {
    let pod = running_pod("big", "a", &["9223372036854775807", "1"]);
    assert!(matches!(sum_pod_rngd(&pod), Err(AggregateError::PodSumOverflow)));
    let nodes = vec![rngd_node("a", "4")];
    assert!(matches!(aggregate(&nodes, &[pod], false), Err(AggregateError::PodSumOverflow)));
}

#[test]
fn pod_limits_are_summed_over_containers() {
    let pod = running_pod("p", "a", &["2", "3", "-1"]);
    assert_eq!(sum_pod_rngd(&pod).unwrap(), 4);
    let no_spec = PodInfo { namespace: None, name: None, spec: None, phase: None };
    assert_eq!(sum_pod_rngd(&no_spec).unwrap(), 0);
}

#[test]
fn node_allocation_summing_past_i64_fails() {
    let nodes = vec![rngd_node("a", "4")];
    let pods = vec![
        running_pod("p1", "a", &["9223372036854775807"]),
        running_pod("p2", "a", &["1"]),
    ];
    assert!(matches!(aggregate(&nodes, &pods, false), Err(AggregateError::NodeSumOverflow)));
}

#[test]
fn unreadable_pod_limit_fails_the_aggregation() {
    let nodes = vec![rngd_node("a", "4")];
    let pods = vec![running_pod("p1", "a", &["two"])];
    match aggregate(&nodes, &pods, false) {
        Err(AggregateError::InvalidQuantity { raw, kind }) => {
            assert_eq!(raw, "two");
            assert_eq!(kind, IntErrorKind::InvalidDigit);
        }
        other => panic!("unexpected {other:?}"),
    }
}
