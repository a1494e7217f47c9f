use kubectl_view_rngd::aggregate_dra::{has_driver_slices, partition_nodes};
use kubectl_view_rngd::cluster::{NodeInfo, SliceInfo};

fn make_node(name: &str) -> NodeInfo {
    NodeInfo { name: Some(name.to_string()), capacity: vec![] }
}

fn make_node_with_capacity(name: &str, capacity: &str) -> NodeInfo {
    NodeInfo {
        name: Some(name.to_string()),
        capacity: vec![("furiosa.ai/rngd".to_string(), capacity.to_string())],
    }
}

fn make_slice(driver: &str) -> SliceInfo {
    SliceInfo {
        driver: driver.to_string(),
        pool_name: "pool-a".to_string(),
        generation: 1,
        node_name: Some("node1".to_string()),
        all_nodes: None,
        devices: vec!["dev0".to_string()],
    }
}

#[test]
fn has_driver_slices_returns_true_when_matching_driver_exists() {
    let slices = vec![
        make_slice("npu.furiosa.ai"),
        make_slice("other.example.com"),
    ];
    assert!(has_driver_slices(&slices, "npu.furiosa.ai"));
}

#[test]
fn has_driver_slices_returns_false_when_slice_list_is_empty() {
    let slices: Vec<SliceInfo> = Vec::new();
    assert!(!has_driver_slices(&slices, "npu.furiosa.ai"));
}

#[test]
fn has_driver_slices_returns_false_when_only_other_drivers_exist() {
    let slices = vec![make_slice("other.example.com")];
    assert!(!has_driver_slices(&slices, "npu.furiosa.ai"));
}

#[test]
fn partition_nodes_splits_mixed_cluster() {
    let nodes = vec![make_node("node1"), make_node("node2")];
    let slices = vec![make_slice("npu.furiosa.ai")];
    let (dra_nodes, dp_nodes) = partition_nodes(&nodes, &slices, "npu.furiosa.ai").unwrap();
    assert_eq!(dra_nodes[0].name.as_deref(), Some("node1"));
    assert_eq!(dp_nodes[0].name.as_deref(), Some("node2"));
}

#[test]
fn partition_nodes_marks_all_nodes_as_dra_when_all_match() {
    let nodes = vec![make_node("node1")];
    let slices = vec![make_slice("npu.furiosa.ai")];
    let (dra_nodes, dp_nodes) = partition_nodes(&nodes, &slices, "npu.furiosa.ai").unwrap();
    assert_eq!(dra_nodes.len(), 1);
    assert!(dp_nodes.is_empty());
}

#[test]
fn partition_nodes_marks_none_as_dra_when_no_slices() {
    let nodes = vec![make_node("node1")];
    let (dra_nodes, dp_nodes) = partition_nodes(&nodes, &[], "npu.furiosa.ai").unwrap();
    assert!(dra_nodes.is_empty());
    assert_eq!(dp_nodes.len(), 1);
}

#[test]
fn partition_nodes_ignores_other_driver_only_slices() {
    let nodes = vec![make_node_with_capacity("node1", "4")];
    let slices = vec![make_slice("other.example.com")];
    let (dra_nodes, dp_nodes) = partition_nodes(&nodes, &slices, "npu.furiosa.ai").unwrap();
    assert!(dra_nodes.is_empty());
    assert_eq!(dp_nodes.len(), 1);
}
