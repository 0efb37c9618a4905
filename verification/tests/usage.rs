use view_allocations::qty::{Qty, QtyCmp};
use view_allocations::usage::{
    extract_kind, extract_node_name, make_kind_x_usage, sum_by_usage, Location, QtyOfUsage,
    Resource, ResourceUsage,
};

fn q(s: &str) -> Qty {
    Qty::from_str(s).unwrap()
}

fn obs(kind: &str, node: &str, usage: ResourceUsage, quantity: &str) -> Resource {
    Resource {
        kind: kind.to_string(),
        quantity: q(quantity),
        location: Location {
            node_name: Some(node.to_string()),
            namespace: None,
            pod_name: None,
            container_name: None,
        },
        usage,
    }
}

#[test]
fn extractors_are_total() {
    let r = obs("cpu", "n1", ResourceUsage::Requested, "1");
    assert_eq!(extract_kind(&r), "cpu");
    assert_eq!(extract_node_name(&r), "n1");
    let bare = Resource {
        kind: "mem".to_string(),
        quantity: q("1"),
        location: Location::default(),
        usage: ResourceUsage::Limit,
    };
    assert_eq!(extract_node_name(&bare), "");
}

#[test]
fn sum_by_usage_routes_each_kind() {
    let a = obs("cpu", "n1", ResourceUsage::Limit, "2");
    let b = obs("cpu", "n1", ResourceUsage::Requested, "500m");
    let c = obs("cpu", "n1", ResourceUsage::Requested, "1500m");
    let d = obs("cpu", "n1", ResourceUsage::Allocatable, "4");
    let refs: Vec<&Resource> = vec![&a, &b, &c, &d];
    let acc = sum_by_usage(&refs);
    assert_eq!(acc.limit.compare(&q("2")), QtyCmp::Equal);
    assert_eq!(acc.requested.compare(&q("2")), QtyCmp::Equal);
    assert_eq!(acc.allocatable.compare(&q("4")), QtyCmp::Equal);
}

#[test]
fn calc_free_floors_at_zero() {
    let over = QtyOfUsage {
        limit: q("2"),
        requested: q("3"),
        allocatable: q("2"),
    };
    assert!(over.calc_free().is_zero());
    let exact = QtyOfUsage {
        limit: q("4"),
        requested: q("4"),
        allocatable: q("4"),
    };
    assert!(exact.calc_free().is_zero());
    let free = QtyOfUsage {
        limit: q("3"),
        requested: q("2"),
        allocatable: q("4"),
    };
    assert_eq!(free.calc_free().compare(&q("1")), QtyCmp::Equal);
}

#[test]
fn aggregation_pre_order_and_sums() {
    let rs = vec![
        obs("cpu", "n2", ResourceUsage::Requested, "1"),
        obs("cpu", "n1", ResourceUsage::Requested, "2"),
        obs("mem", "n1", ResourceUsage::Requested, "1Gi"),
    ];
    let rows = make_kind_x_usage(&rs);
    let paths: Vec<Vec<String>> = rows.iter().map(|r| r.0.clone()).collect();
    assert_eq!(
        paths,
        vec![
            vec!["cpu".to_string()],
            vec!["cpu".to_string(), "n1".to_string()],
            vec!["cpu".to_string(), "n2".to_string()],
            vec!["mem".to_string()],
            vec!["mem".to_string(), "n1".to_string()],
        ]
    );
    assert_eq!(rows[0].1.requested.compare(&q("3")), QtyCmp::Equal);
    assert_eq!(rows[1].1.requested.compare(&q("2")), QtyCmp::Equal);
    assert_eq!(rows[2].1.requested.compare(&q("1")), QtyCmp::Equal);
    assert_eq!(rows[3].1.requested.compare(&q("1Gi")), QtyCmp::Equal);
    assert_eq!(rows[4].1.requested.compare(&q("1Gi")), QtyCmp::Equal);
}

#[test]
fn leaf_sums_equal_root_sums() {
    let rs = vec![
        obs("cpu", "n2", ResourceUsage::Requested, "1"),
        obs("cpu", "n1", ResourceUsage::Requested, "2"),
        obs("mem", "n1", ResourceUsage::Requested, "1Gi"),
        obs("cpu", "n1", ResourceUsage::Requested, "250m"),
    ];
    let rows = make_kind_x_usage(&rs);
    let mut leaves = Qty::default();
    let mut roots = Qty::default();
    for (path, acc) in rows.iter() {
        if path.len() == 2 {
            leaves = leaves.add(&acc.requested);
        } else if path.len() == 1 {
            roots = roots.add(&acc.requested);
        }
    }
    assert_eq!(leaves.compare(&roots), QtyCmp::Equal);
    let total = q("1")
        .add(&q("2"))
        .add(&q("1Gi"))
        .add(&q("250m"));
    assert_eq!(leaves.compare(&total), QtyCmp::Equal);
}

#[test]
fn missing_node_groups_under_empty_label() {
    let mut r = obs("cpu", "n1", ResourceUsage::Requested, "1");
    r.location.node_name = None;
    let rows = make_kind_x_usage(&[r]);
    let paths: Vec<Vec<String>> = rows.iter().map(|x| x.0.clone()).collect();
    assert_eq!(
        paths,
        vec![
            vec!["cpu".to_string()],
            vec!["cpu".to_string(), "".to_string()],
        ]
    );
}
