use kubectl_view_rngd::aggregate::{aggregate, NodeRow};
use kubectl_view_rngd::aggregate_dra::{aggregate_dra, partition_nodes};
use kubectl_view_rngd::cluster::{
    ClaimInfo, ConsumerInfo, ContainerInfo, DeviceResultInfo, NodeInfo, PodInfo, PodSpecInfo,
    SliceInfo,
};

const DRIVER: &str = "npu.furiosa.ai";

fn node(name: &str, cap: Option<&str>) -> NodeInfo {
    let mut capacity = vec![("cpu".to_string(), "8".to_string())];
    if let Some(c) = cap {
        capacity.push(("furiosa.ai/rngd".to_string(), c.to_string()));
    }
    NodeInfo { name: Some(name.to_string()), capacity }
}

fn pod(ns: &str, name: &str, node: Option<&str>, phase: &str, limit: &str) -> PodInfo {
    PodInfo {
        namespace: Some(ns.to_string()),
        name: Some(name.to_string()),
        spec: Some(PodSpecInfo {
            node_name: node.map(|n| n.to_string()),
            containers: vec![ContainerInfo {
                limits: vec![("furiosa.ai/rngd".to_string(), limit.to_string())],
            }],
        }),
        phase: Some(phase.to_string()),
    }
}

fn slice(driver: &str, pool: &str, generation: i64, node: &str, devices: &[&str]) -> SliceInfo {
    SliceInfo {
        driver: driver.to_string(),
        pool_name: pool.to_string(),
        generation,
        node_name: Some(node.to_string()),
        all_nodes: None,
        devices: devices.iter().map(|d| d.to_string()).collect(),
    }
}

fn claim(ns: &str, results: Vec<DeviceResultInfo>, pods: &[&str]) -> ClaimInfo {
    ClaimInfo {
        namespace: Some(ns.to_string()),
        results,
        reserved_for: pods
            .iter()
            .map(|p| ConsumerInfo { resource: "pods".to_string(), name: p.to_string() })
            .collect(),
    }
}

fn res(driver: &str, pool: &str, device: &str, admin: Option<bool>) -> DeviceResultInfo {
    DeviceResultInfo {
        driver: driver.to_string(),
        pool: pool.to_string(),
        device: device.to_string(),
        admin_access: admin,
    }
}

fn base_pods() -> Vec<PodInfo> {
    vec![
        pod("ns1", "a", Some("n2"), "Running", "2"),
        pod("ns1", "b", Some("n1"), "Pending", "1"),
        pod("ns0", "c", Some("n2"), "Running", "3"),
    ]
}

fn base_nodes() -> Vec<NodeInfo> {
    vec![node("n2", Some("8")), node("n1", Some("4")), node("n3", None)]
}

fn assert_strictly_sorted(rows: &[NodeRow]) {
    for w in rows.windows(2) {
        assert!(w[0].node_name < w[1].node_name, "rows out of order: {rows:#?}");
    }
}

#[test]
fn law_device_plugin_rows_sorted_and_summed() {
    let rows = aggregate(&base_nodes(), &base_pods(), true).unwrap();
    assert_strictly_sorted(&rows);
    assert_eq!(rows.len(), 3);
    for r in &rows {
        assert_eq!(r.allocated, r.pods.iter().map(|p| p.count).sum::<i64>());
        for w in r.pods.windows(2) {
            assert!((&w[0].namespace, &w[0].name) <= (&w[1].namespace, &w[1].name));
        }
        assert_eq!(r.source.is_some(), r.capacity > 0 || r.allocated > 0);
    }
    let n2 = rows.iter().find(|r| r.node_name == "n2").unwrap();
    assert_eq!(n2.allocated, 5);
    assert_eq!(n2.pods[0].namespace, "ns0");
}

#[test]
fn law_device_plugin_without_include_empty_only_rows_with_capacity() {
    let rows = aggregate(&base_nodes(), &base_pods(), false).unwrap();
    assert!(rows.iter().all(|r| r.capacity > 0));
    assert_eq!(rows.iter().map(|r| r.node_name.as_str()).collect::<Vec<_>>(), vec!["n1", "n2"]);
}

#[test]
fn law_idle_pods_change_nothing_wherever_they_stand() {
    let expected = aggregate(&base_nodes(), &base_pods(), true).unwrap();
    let idle = [
        pod("ns1", "done", Some("n1"), "Succeeded", "4"),
        pod("ns1", "failed", Some("n2"), "Failed", "4"),
        pod("ns1", "waiting", None, "Pending", "4"),
        pod("ns1", "none", Some("n1"), "Running", "0"),
    ];
    for p in idle {
        for k in 0..=base_pods().len() {
            let mut pods = base_pods();
            pods.insert(k, p.clone());
            assert_eq!(aggregate(&base_nodes(), &pods, true).unwrap(), expected);
        }
    }
}

fn dra_slices() -> Vec<SliceInfo> {
    vec![
        slice(DRIVER, "p1", 2, "n1", &["npu0", "npu1"]),
        slice(DRIVER, "p2", 1, "n2", &["npu0"]),
    ]
}

fn dra_claims() -> Vec<ClaimInfo> {
    vec![claim("ns", vec![res(DRIVER, "p1", "npu0", None)], &["pod-a"])]
}

#[test]
fn law_other_driver_slices_change_nothing() {
    let nodes = vec![node("n1", None), node("n2", None)];
    let expected = aggregate_dra(&nodes, &dra_slices(), &dra_claims(), DRIVER, false).unwrap();
    for k in 0..=dra_slices().len() {
        let mut slices = dra_slices();
        slices.insert(k, slice("gpu.example.com", "p1", 9, "n1", &["g0", "g1", "g2"]));
        assert_eq!(aggregate_dra(&nodes, &slices, &dra_claims(), DRIVER, false).unwrap(), expected);
    }
}

#[test]
fn law_stale_slices_change_nothing() {
    let nodes = vec![node("n1", None), node("n2", None)];
    let expected = aggregate_dra(&nodes, &dra_slices(), &dra_claims(), DRIVER, false).unwrap();
    assert_eq!(expected.iter().find(|r| r.node_name == "n1").unwrap().capacity, 2);
    for k in 0..=dra_slices().len() {
        let mut slices = dra_slices();
        slices.insert(k, slice(DRIVER, "p1", 1, "n1", &["old0", "old1", "old2"]));
        assert_eq!(aggregate_dra(&nodes, &slices, &dra_claims(), DRIVER, false).unwrap(), expected);
    }
}

#[test]
fn law_claims_of_admins_or_other_drivers_change_nothing() {
    let nodes = vec![node("n1", None), node("n2", None)];
    let expected = aggregate_dra(&nodes, &dra_slices(), &dra_claims(), DRIVER, false).unwrap();
    let ignored = claim(
        "ns",
        vec![res(DRIVER, "p1", "npu1", Some(true)), res("gpu.example.com", "p2", "npu0", None)],
        &["pod-b"],
    );
    for k in 0..=dra_claims().len() {
        let mut claims = dra_claims();
        claims.insert(k, ignored.clone());
        assert_eq!(aggregate_dra(&nodes, &dra_slices(), &claims, DRIVER, false).unwrap(), expected);
    }
}

#[test]
fn law_dra_table_sorted_with_every_listed_node() {
    let nodes = vec![node("n3", None), node("n2", None), node("n1", None)];
    let rows = aggregate_dra(&nodes, &dra_slices(), &dra_claims(), DRIVER, true).unwrap();
    assert_strictly_sorted(&rows);
    assert_eq!(rows.iter().map(|r| r.node_name.as_str()).collect::<Vec<_>>(), vec!["n1", "n2", "n3"]);
    let n3 = &rows[2];
    assert_eq!((n3.capacity, n3.allocated, n3.source), (0, 0, None));
}

#[test]
fn law_dra_table_rows_for_slice_nodes_not_listed() {
    let rows = aggregate_dra(&[], &dra_slices(), &dra_claims(), DRIVER, false).unwrap();
    assert_eq!(rows.iter().map(|r| r.node_name.as_str()).collect::<Vec<_>>(), vec!["n1", "n2"]);
    assert_eq!(rows[0].allocated, 1);
    assert_eq!(rows[0].pods[0].devices, vec!["npu0".to_string()]);
}

#[test]
fn law_partition_keeps_order_and_every_node() {
    let nodes = vec![node("n3", None), node("n1", None), node("n4", None), node("n2", None)];
    let (dra, dp) = partition_nodes(&nodes, &dra_slices(), DRIVER).unwrap();
    let names = |v: &[NodeInfo]| v.iter().map(|n| n.name.clone().unwrap()).collect::<Vec<_>>();
    assert_eq!(names(&dra), vec!["n1", "n2"]);
    assert_eq!(names(&dp), vec!["n3", "n4"]);
    assert_eq!(dra.len() + dp.len(), nodes.len());
}

#[test]
fn law_device_plugin_pods_are_exactly_the_holding_pods() {
    let mut pods = base_pods();
    pods.push(pod("ns9", "gone", Some("n1"), "Succeeded", "3"));
    pods.push(pod("ns9", "elsewhere", Some("n9"), "Running", "3"));
    let rows = aggregate(&base_nodes(), &pods, true).unwrap();
    let n1 = rows.iter().find(|r| r.node_name == "n1").unwrap();
    let keys: Vec<(&str, &str, i64)> =
        n1.pods.iter().map(|p| (p.namespace.as_str(), p.name.as_str(), p.count)).collect();
    assert_eq!(keys, vec![("ns1", "b", 1)]);
    assert!(rows.iter().all(|r| r.pods.iter().all(|p| p.namespace != "ns9")));
}

#[test]
fn law_dra_pods_are_the_reserved_pods_of_counting_claims() {
    let nodes = vec![node("n1", None), node("n2", None)];
    let claims = vec![
        claim("ns", vec![res(DRIVER, "p1", "npu0", None)], &["pod-a", "pod-b"]),
        claim("other", vec![res(DRIVER, "p2", "npu0", None)], &["pod-c"]),
        claim("ns", vec![res(DRIVER, "p1", "npu1", Some(true))], &["pod-d"]),
        claim("ns", vec![res(DRIVER, "unknown-pool", "npu9", None)], &["pod-e"]),
    ];
    let rows = aggregate_dra(&nodes, &dra_slices(), &claims, DRIVER, false).unwrap();
    let names = |r: &NodeRow| r.pods.iter().map(|p| format!("{}/{}", p.namespace, p.name)).collect::<Vec<_>>();
    assert_eq!(names(&rows[0]), vec!["ns/pod-a", "ns/pod-b"]);
    assert_eq!(names(&rows[1]), vec!["other/pod-c"]);
}

#[test]
fn law_dra_allocated_counts_distinct_devices() {
    let nodes = vec![node("n1", None)];
    let claims = vec![
        claim("ns", vec![res(DRIVER, "p1", "npu0", None), res(DRIVER, "p1", "npu0", None)], &["pod-a"]),
        claim("ns", vec![res(DRIVER, "p1", "npu0", None), res(DRIVER, "p1", "npu1", None)], &["pod-b"]),
    ];
    let rows = aggregate_dra(&nodes, &dra_slices(), &claims, DRIVER, false).unwrap();
    let n1 = rows.iter().find(|r| r.node_name == "n1").unwrap();
    assert_eq!(n1.allocated, 2);
    assert_eq!(n1.capacity, 2);
}

#[test]
fn law_dra_pod_counts_sum_over_claims() {
    let nodes = vec![node("n1", None), node("n2", None)];
    let claims = vec![
        claim("ns", vec![res(DRIVER, "p1", "npu0", None), res(DRIVER, "p1", "npu1", None)], &["pod-a"]),
        claim("ns", vec![res(DRIVER, "p1", "npu0", None), res(DRIVER, "p2", "npu0", None)], &["pod-a", "pod-b"]),
        claim("other", vec![res(DRIVER, "p1", "npu1", None)], &["pod-a"]),
    ];
    let rows = aggregate_dra(&nodes, &dra_slices(), &claims, DRIVER, false).unwrap();
    let n1 = rows.iter().find(|r| r.node_name == "n1").unwrap();
    let counts: Vec<(String, i64)> =
        n1.pods.iter().map(|p| (format!("{}/{}", p.namespace, p.name), p.count)).collect();
    assert_eq!(
        counts,
        vec![("ns/pod-a".to_string(), 3), ("ns/pod-b".to_string(), 1), ("other/pod-a".to_string(), 1)]
    );
    let n2 = rows.iter().find(|r| r.node_name == "n2").unwrap();
    let counts2: Vec<(String, i64)> =
        n2.pods.iter().map(|p| (format!("{}/{}", p.namespace, p.name), p.count)).collect();
    assert_eq!(counts2, vec![("ns/pod-a".to_string(), 1), ("ns/pod-b".to_string(), 1)]);
}

#[test]
fn law_dra_capacity_sums_pools_on_the_node() {
    let nodes = vec![node("n1", None)];
    let slices = vec![
        slice(DRIVER, "p1", 2, "n1", &["a", "b"]),
        slice(DRIVER, "p3", 1, "n1", &["c", "d", "e"]),
        slice(DRIVER, "p1", 2, "n1", &["f"]),
        slice(DRIVER, "p2", 1, "n2", &["g"]),
    ];
    let rows = aggregate_dra(&nodes, &slices, &[], DRIVER, true).unwrap();
    let caps: Vec<(&str, i64)> = rows.iter().map(|r| (r.node_name.as_str(), r.capacity)).collect();
    assert_eq!(caps, vec![("n1", 6), ("n2", 1)]);
}

#[test]
fn law_device_plugin_capacity_of_last_node_of_a_name() {
    let nodes = vec![node("n1", Some("4")), node("n2", Some("2")), node("n1", Some("8"))];
    let rows = aggregate(&nodes, &[], false).unwrap();
    let caps: Vec<(&str, i64)> = rows.iter().map(|r| (r.node_name.as_str(), r.capacity)).collect();
    assert_eq!(caps, vec![("n1", 8), ("n2", 2)]);
}

#[test]
fn law_dra_pod_devices_in_claim_order() {
    let nodes = vec![node("n1", None)];
    let claims = vec![
        claim("ns", vec![res(DRIVER, "p1", "npu1", None)], &["pod-a"]),
        claim("ns", vec![res(DRIVER, "p1", "npu0", None), res(DRIVER, "p2", "npu0", None)], &["pod-a"]),
    ];
    let rows = aggregate_dra(&nodes, &dra_slices(), &claims, DRIVER, false).unwrap();
    let n1 = rows.iter().find(|r| r.node_name == "n1").unwrap();
    assert_eq!(n1.pods.len(), 1);
    assert_eq!(n1.pods[0].devices, vec!["npu1".to_string(), "npu0".to_string()]);
    assert_eq!(n1.pods[0].count, 2);
}

#[test]
fn law_include_empty_adds_only_rows_without_capacity() {
    let nodes = vec![node("n3", None), node("n1", Some("4")), node("n0", Some("0")), node("n2", Some("8"))];
    let with = aggregate(&nodes, &base_pods(), true).unwrap();
    let without = aggregate(&nodes, &base_pods(), false).unwrap();
    let filtered: Vec<NodeRow> = with.iter().filter(|r| r.capacity > 0).cloned().collect();
    assert_eq!(without, filtered);
    assert_eq!(with.iter().map(|r| r.node_name.as_str()).collect::<Vec<_>>(), vec!["n0", "n1", "n2", "n3"]);
    for r in with.iter().filter(|r| r.capacity <= 0) {
        assert!(r.pods.is_empty());
        assert_eq!((r.allocated, r.source), (0, None));
    }
}

#[test]
fn law_include_empty_only_larger_table_fails_on_empty_node_overflow() {
    let nodes = vec![node("n1", Some("4")), node("n0", None)];
    let pods = vec![
        pod("ns", "a", Some("n0"), "Running", "9223372036854775807"),
        pod("ns", "b", Some("n0"), "Running", "1"),
    ];
    assert!(aggregate(&nodes, &pods, false).is_ok());
    assert!(matches!(
        aggregate(&nodes, &pods, true),
        Err(kubectl_view_rngd::error::AggregateError::NodeSumOverflow)
    ));
}

#[test]
fn law_dra_include_empty_adds_only_rows_without_capacity() {
    let nodes = vec![node("n3", None), node("n1", None), node("n2", None)];
    let with = aggregate_dra(&nodes, &dra_slices(), &dra_claims(), DRIVER, true).unwrap();
    let without = aggregate_dra(&nodes, &dra_slices(), &dra_claims(), DRIVER, false).unwrap();
    let filtered: Vec<NodeRow> = with.iter().filter(|r| r.capacity > 0).cloned().collect();
    assert_eq!(without, filtered);
    assert_eq!(with.len(), 3);
}
