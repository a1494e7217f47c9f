use kubectl_view_rngd::aggregate::{aggregate, NodeRow, PodEntry, RowSource};
use kubectl_view_rngd::aggregate_dra::{
    aggregate_dra, device_plugin_conflicts, pool_node_name, ALL_NODES_LABEL, MULTI_NODE_LABEL,
};
use kubectl_view_rngd::cli::Source;
use kubectl_view_rngd::cluster::{
    ClaimInfo, ConsumerInfo, ContainerInfo, DeviceResultInfo, NodeInfo, PodInfo, PodSpecInfo,
    SliceInfo,
};
use kubectl_view_rngd::pipeline::{
    decide_auto, merge_auto_rows, should_fallback_to_device_plugin, AutoStep, ListFailure,
};
use kubectl_view_rngd::render::{render, short_device_name};
use kubectl_view_rngd::{DEFAULT_DRA_DRIVER, RNGD_RESOURCE};

fn node(name: &str, cap: Option<&str>) -> NodeInfo {
    let mut capacity = vec![];
    if let Some(c) = cap {
        capacity.push((RNGD_RESOURCE.to_string(), c.to_string()));
    }
    NodeInfo { name: Some(name.to_string()), capacity }
}

fn slice(driver: &str, pool: &str, node: Option<&str>, all_nodes: Option<bool>, devices: &[&str]) -> SliceInfo {
    SliceInfo {
        driver: driver.to_string(),
        pool_name: pool.to_string(),
        generation: 1,
        node_name: node.map(|n| n.to_string()),
        all_nodes,
        devices: devices.iter().map(|d| d.to_string()).collect(),
    }
}

#[test]
fn constants_name_the_resource_and_driver() {
    assert_eq!(RNGD_RESOURCE, "furiosa.ai/rngd");
    assert_eq!(DEFAULT_DRA_DRIVER, "npu.furiosa.ai");
    assert_eq!(Source::default(), Source::Auto);
}

#[test]
fn fallback_only_for_forbidden_or_missing_api() {
    assert!(should_fallback_to_device_plugin(&ListFailure::Api { code: 403 }));
    assert!(should_fallback_to_device_plugin(&ListFailure::Api { code: 404 }));
    assert!(!should_fallback_to_device_plugin(&ListFailure::Api { code: 500 }));
    assert!(!should_fallback_to_device_plugin(&ListFailure::Api { code: 401 }));
    assert!(!should_fallback_to_device_plugin(&ListFailure::Other));
}

#[test]
fn decide_auto_covers_every_outcome() {
    assert!(matches!(decide_auto(Err(ListFailure::Api { code: 404 }), DEFAULT_DRA_DRIVER), AutoStep::DevicePlugin));
    assert!(matches!(
        decide_auto(Err(ListFailure::Api { code: 500 }), DEFAULT_DRA_DRIVER),
        AutoStep::Fail(ListFailure::Api { code: 500 })
    ));
    assert!(matches!(decide_auto(Err(ListFailure::Other), DEFAULT_DRA_DRIVER), AutoStep::Fail(ListFailure::Other)));
    assert!(matches!(decide_auto(Ok(vec![]), DEFAULT_DRA_DRIVER), AutoStep::DevicePlugin));
    let other = vec![slice("gpu.example.com", "p", Some("n1"), None, &["g0"])];
    assert!(matches!(decide_auto(Ok(other), DEFAULT_DRA_DRIVER), AutoStep::DevicePlugin));
    let ours = vec![
        slice("gpu.example.com", "p", Some("n1"), None, &["g0"]),
        slice(DEFAULT_DRA_DRIVER, "q", Some("n2"), None, &["npu0"]),
    ];
    match decide_auto(Ok(ours), DEFAULT_DRA_DRIVER) {
        AutoStep::Dra(s) => {
            assert_eq!(s.len(), 2);
            assert_eq!(s[1].pool_name, "q");
        }
        other => panic!("unexpected {other:?}"),
    }
}

#[test]
fn pool_node_name_labels() {
    assert_eq!(pool_node_name(&slice("d", "p", Some("n1"), Some(true), &[])), "n1");
    assert_eq!(pool_node_name(&slice("d", "p", None, Some(true), &[])), ALL_NODES_LABEL);
    assert_eq!(pool_node_name(&slice("d", "p", None, Some(false), &[])), MULTI_NODE_LABEL);
    assert_eq!(pool_node_name(&slice("d", "p", None, None, &[])), MULTI_NODE_LABEL);
}

#[test]
fn dra_pool_on_several_nodes_is_multi_node() {
    let slices = vec![
        slice(DEFAULT_DRA_DRIVER, "p", Some("n1"), None, &["a"]),
        slice(DEFAULT_DRA_DRIVER, "p", Some("n2"), None, &["b"]),
    ];
    let rows = aggregate_dra(&[], &slices, &[], DEFAULT_DRA_DRIVER, false).unwrap();
    assert_eq!(rows.len(), 1);
    assert_eq!(rows[0].node_name, MULTI_NODE_LABEL);
    assert_eq!(rows[0].capacity, 2);
}

#[test]
fn conflicts_list_dra_nodes_with_device_plugin_capacity() {
    let nodes = vec![node("a", Some("8")), node("b", None), node("c", Some("0"))];
    assert_eq!(device_plugin_conflicts(&nodes), vec!["a".to_string(), "c".to_string()]);
    assert!(device_plugin_conflicts(&[]).is_empty());
}

#[test]
fn merge_auto_rows_sorts_both_sources_together() {
    let dra_nodes = vec![node("n2", None)];
    let dp_nodes = vec![node("n3", Some("4")), node("n1", Some("2"))];
    let pods = vec![PodInfo {
        namespace: Some("ns".to_string()),
        name: Some("p".to_string()),
        spec: Some(PodSpecInfo {
            node_name: Some("n1".to_string()),
            containers: vec![ContainerInfo { limits: vec![(RNGD_RESOURCE.to_string(), "1".to_string())] }],
        }),
        phase: Some("Running".to_string()),
    }];
    let slices = vec![slice(DEFAULT_DRA_DRIVER, "pool", Some("n2"), None, &["npu0", "npu1"])];
    let claims = vec![ClaimInfo {
        namespace: Some("ns".to_string()),
        results: vec![DeviceResultInfo {
            driver: DEFAULT_DRA_DRIVER.to_string(),
            pool: "pool".to_string(),
            device: "npu1".to_string(),
            admin_access: None,
        }],
        reserved_for: vec![ConsumerInfo { resource: "pods".to_string(), name: "q".to_string() }],
    }];
    let rows = merge_auto_rows(&dra_nodes, &dp_nodes, &pods, &slices, &claims, DEFAULT_DRA_DRIVER, false).unwrap();
    let names: Vec<&str> = rows.iter().map(|r| r.node_name.as_str()).collect();
    assert_eq!(names, vec!["n1", "n2", "n3"]);
    assert_eq!(rows[0].source, Some(RowSource::DevicePlugin));
    assert_eq!(rows[0].allocated, 1);
    assert_eq!(rows[1].source, Some(RowSource::Dra));
    assert_eq!((rows[1].capacity, rows[1].allocated), (2, 1));
    assert_eq!(
        rows[1].pods,
        vec![PodEntry { namespace: "ns".to_string(), name: "q".to_string(), count: 1, devices: vec!["npu1".to_string()] }]
    );
    let dra = aggregate_dra(&dra_nodes, &slices, &claims, DEFAULT_DRA_DRIVER, false).unwrap();
    let dp = aggregate(&dp_nodes, &pods, false).unwrap();
    assert_eq!(rows.len(), dra.len() + dp.len());
}

#[test]
fn short_device_name_edge_cases() {
    assert_eq!(short_device_name(""), "");
    assert_eq!(short_device_name("123"), "123");
    assert_eq!(short_device_name("npu"), "npu");
    assert_eq!(short_device_name("a1"), "1");
    assert_eq!(short_device_name("npu-07"), "07");
    assert_eq!(short_device_name("npu0x"), "npu0x");
}

fn one_row(source: Option<RowSource>, capacity: i64, allocated: i64, pods: Vec<PodEntry>) -> Vec<NodeRow> {
    vec![NodeRow { node_name: "node-x".to_string(), source, capacity, allocated, pods }]
}

#[test]
fn render_shows_dash_for_missing_source_and_pods() {
    let out = render(&one_row(None, 0, 0, vec![]), false);
    let line = out.lines().find(|l| l.contains("node-x")).unwrap();
    assert!(line.contains("│ - "), "{out}");
    assert!(line.contains("0 / 0"), "{out}");
    assert!(out.starts_with('┌'), "{out}");
}

#[test]
fn render_prints_negative_numbers_and_sources() {
    let out = render(&one_row(Some(RowSource::Dra), -3, 12, vec![]), false);
    assert!(out.contains("12 / -3"), "{out}");
    assert!(out.contains("dra"), "{out}");
}

#[test]
fn render_devices_only_where_known_and_asked() {
    let pods = vec![
        PodEntry { namespace: "ns".to_string(), name: "a".to_string(), count: 2, devices: vec!["x1".to_string(), "x0".to_string()] },
        PodEntry { namespace: "ns".to_string(), name: "b".to_string(), count: 1, devices: vec![] },
    ];
    let with = render(&one_row(Some(RowSource::Dra), 4, 3, pods.clone()), true);
    assert!(with.contains("ns/a (x0,x1)"), "{with}");
    assert!(with.contains("ns/b (1)"), "{with}");
    let without = render(&one_row(Some(RowSource::Dra), 4, 3, pods), false);
    assert!(without.contains("ns/a (2)"), "{without}");
    assert!(without.lines().filter(|l| l.contains("ns/")).count() == 2, "{without}");
}

#[test]
fn render_header_row_and_borders() {
    let out = render(&[], false);
    let header = out.lines().nth(1).unwrap();
    for title in ["Node", "Source", "Usage", "Pods"] {
        assert!(header.contains(title), "{out}");
    }
    assert!(out.lines().count() >= 3, "{out}");
    assert!(out.contains('╞') || out.contains('═'), "{out}");
}

fn device_pod(devices: &[&str]) -> Vec<PodEntry> {
    vec![PodEntry {
        namespace: "ns".to_string(),
        name: "p".to_string(),
        count: devices.len() as i64,
        devices: devices.iter().map(|d| d.to_string()).collect(),
    }]
}

#[test]
fn render_orders_devices_by_number() {
    let out = render(&one_row(Some(RowSource::Dra), 16, 3, device_pod(&["npu10", "npu9", "npu2"])), true);
    assert!(out.contains("ns/p (npu2,npu9,npu10)"), "{out}");
}

#[test]
fn render_keeps_equal_device_numbers_in_order() {
    let out = render(&one_row(Some(RowSource::Dra), 16, 2, device_pod(&["npu02", "dev2", "npu1"])), true);
    assert!(out.contains("ns/p (npu1,npu02,dev2)"), "{out}");
}

#[test]
fn render_orders_unnumbered_devices_as_text_around_numbers() {
    let out = render(&one_row(Some(RowSource::Dra), 16, 3, device_pod(&["zz", "npu3", "-a", "b"])), true);
    assert!(out.contains("ns/p (-a,npu3,b,zz)"), "{out}");
}
