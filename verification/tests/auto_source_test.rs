use kubectl_view_rngd::aggregate::{aggregate, NodeRow, PodEntry, RowSource};
use kubectl_view_rngd::aggregate_dra::{aggregate_dra, partition_nodes};
use kubectl_view_rngd::cluster::{
    ClaimInfo, ConsumerInfo, ContainerInfo, DeviceResultInfo, NodeInfo, PodInfo, PodSpecInfo,
    SliceInfo,
};

fn make_node(name: &str, rngd_capacity: Option<&str>) -> NodeInfo {
    let mut capacity = vec![];
    if let Some(cap) = rngd_capacity {
        capacity.push(("furiosa.ai/rngd".to_string(), cap.to_string()));
    }
    NodeInfo { name: Some(name.to_string()), capacity }
}

fn make_pod(namespace: &str, name: &str, node_name: &str, limits: &[&str]) -> PodInfo {
    let containers = limits
        .iter()
        .map(|limit| ContainerInfo {
            limits: vec![("furiosa.ai/rngd".to_string(), limit.to_string())],
        })
        .collect();
    PodInfo {
        namespace: Some(namespace.to_string()),
        name: Some(name.to_string()),
        spec: Some(PodSpecInfo { node_name: Some(node_name.to_string()), containers }),
        phase: Some("Running".to_string()),
    }
}

#[allow(clippy::too_many_arguments)]
fn make_slice(
    _name: &str,
    driver: &str,
    pool: &str,
    generation: i64,
    _resource_slice_count: i64,
    node_name: Option<&str>,
    all_nodes: Option<bool>,
    devices: &[&str],
) -> SliceInfo {
    SliceInfo {
        driver: driver.to_string(),
        pool_name: pool.to_string(),
        generation,
        node_name: node_name.map(|n| n.to_string()),
        all_nodes,
        devices: devices.iter().map(|d| d.to_string()).collect(),
    }
}

fn make_claim(
    namespace: &str,
    _name: &str,
    results: &[DeviceResultInfo],
    reserved_for: Vec<ConsumerInfo>,
) -> ClaimInfo {
    ClaimInfo {
        namespace: Some(namespace.to_string()),
        results: results.to_vec(),
        reserved_for,
    }
}

fn result(driver: &str, pool: &str, device: &str) -> DeviceResultInfo {
    DeviceResultInfo {
        driver: driver.to_string(),
        pool: pool.to_string(),
        device: device.to_string(),
        admin_access: None,
    }
}

fn pod_consumer(name: &str, _uid: &str) -> ConsumerInfo {
    ConsumerInfo { resource: "pods".to_string(), name: name.to_string() }
}

fn row<'a>(rows: &'a [NodeRow], name: &str) -> &'a NodeRow {
    rows.iter()
        .find(|row| row.node_name == name)
        .unwrap_or_else(|| panic!("no row for node {name} in {rows:#?}"))
}

#[test]
fn mixed_cluster_merges_device_plugin_and_dra_rows_per_node() {
    let nodes = vec![make_node("node1", Some("4")), make_node("node2", None)];
    let pods = vec![
        make_pod("ns-dp", "pod-dp", "node1", &["2"]),
        make_pod("ns-dra", "pod-ignored", "node2", &["9"]),
    ];
    let slices = vec![make_slice(
        "slice-1",
        "npu.furiosa.ai",
        "pool-a",
        1,
        1,
        Some("node2"),
        None,
        &["dev0", "dev1", "dev2", "dev3"],
    )];
    let claims = vec![make_claim(
        "ns-dra",
        "claim-a",
        &[
            result("npu.furiosa.ai", "pool-a", "dev0"),
            result("npu.furiosa.ai", "pool-a", "dev1"),
        ],
        vec![pod_consumer("pod-dra", "uid-a")],
    )];

    let (dra_nodes, dp_nodes) = partition_nodes(&nodes, &slices, "npu.furiosa.ai").unwrap();
    let mut rows = aggregate_dra(&dra_nodes, &slices, &claims, "npu.furiosa.ai", false).unwrap();
    rows.extend(aggregate(&dp_nodes, &pods, false).unwrap());
    rows.sort_by(|a, b| a.node_name.cmp(&b.node_name));

    let node1 = row(&rows, "node1");
    assert_eq!(node1.source, Some(RowSource::DevicePlugin));
    assert_eq!(node1.capacity, 4);
    assert_eq!(node1.allocated, 2);
    assert_eq!(
        node1.pods,
        vec![PodEntry {
            namespace: "ns-dp".into(),
            name: "pod-dp".into(),
            count: 2,
            devices: vec![],
        }]
    );

    let node2 = row(&rows, "node2");
    assert_eq!(node2.source, Some(RowSource::Dra));
    assert_eq!(node2.capacity, 4);
    assert_eq!(node2.allocated, 2);
    assert_eq!(
        node2.pods,
        vec![PodEntry {
            namespace: "ns-dra".into(),
            name: "pod-dra".into(),
            count: 2,
            devices: vec!["dev0".into(), "dev1".into()],
        }]
    );
}

#[test]
fn conflict_prefers_dra_for_node_with_both_sources() {
    let nodes = vec![make_node("node1", Some("8"))];
    let pods = vec![make_pod("ns-dp", "pod-dp", "node1", &["8"])];
    let slices = vec![make_slice(
        "slice-1",
        "npu.furiosa.ai",
        "pool-a",
        1,
        1,
        Some("node1"),
        None,
        &["dev0", "dev1", "dev2", "dev3"],
    )];
    let claims = vec![make_claim(
        "ns-dra",
        "claim-a",
        &[result("npu.furiosa.ai", "pool-a", "dev0")],
        vec![pod_consumer("pod-dra", "uid-a")],
    )];

    let (dra_nodes, dp_nodes) = partition_nodes(&nodes, &slices, "npu.furiosa.ai").unwrap();
    assert!(dp_nodes.is_empty());

    let mut rows = aggregate_dra(&dra_nodes, &slices, &claims, "npu.furiosa.ai", false).unwrap();
    rows.extend(aggregate(&dp_nodes, &pods, false).unwrap());

    assert_eq!(rows.len(), 1);
    let node = row(&rows, "node1");
    assert_eq!(node.source, Some(RowSource::Dra));
    assert_eq!(node.capacity, 4);
    assert_eq!(node.allocated, 1);
    assert_eq!(
        node.pods,
        vec![PodEntry {
            namespace: "ns-dra".into(),
            name: "pod-dra".into(),
            count: 1,
            devices: vec!["dev0".into()],
        }]
    );
}
