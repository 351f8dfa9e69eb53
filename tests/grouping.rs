use kubectl_view_allocations::{
    accept_resource, make_qualifiers, provide_prefix, sum_by_qualifier, GroupBy, Location, Qty,
    QtyByQualifier, Resource, ResourceQualifier,
};

fn rec(kind: &str, qualifier: ResourceQualifier, qty: &str, node: Option<&str>, pod: Option<&str>) -> Resource {
    Resource {
        kind: kind.to_string(),
        quantity: Qty::from_str(qty).unwrap(),
        location: Location {
            node_name: node.map(|s| s.to_string()),
            namespace: pod.map(|_| "default".to_string()),
            pod_name: pod.map(|s| s.to_string()),
        },
        qualifier,
    }
}

fn paths(out: &[(Vec<String>, Option<QtyByQualifier>)]) -> Vec<Vec<String>> {
    out.iter().map(|e| e.0.clone()).collect()
}

fn attos(o: &Option<Qty>) -> Option<u128> {
    o.map(|x| x.attos)
}

#[test]
fn test_accept_resource() {
    assert_eq!(accept_resource("cpu", &vec![]), true);
    assert_eq!(accept_resource("cpu", &vec!["c".to_string()]), true);
    assert_eq!(accept_resource("cpu", &vec!["cpu".to_string()]), true);
    assert_eq!(accept_resource("cpu", &vec!["cpu3".to_string()]), false);
    assert_eq!(accept_resource("gpu", &vec!["gpu".to_string()]), true);
    assert_eq!(
        accept_resource("nvidia.com/gpu", &vec!["gpu".to_string()]),
        true
    );
}

fn node_scenario() -> Vec<Resource> {
    vec![
        rec("cpu", ResourceQualifier::Allocatable, "4", Some("n1"), None),
        rec("cpu", ResourceQualifier::Requested, "500m", Some("n1"), Some("pod-a")),
        rec("cpu", ResourceQualifier::Requested, "1500m", Some("n1"), Some("pod-b")),
    ]
}

#[test]
fn node_totals_and_free() {
    let out = make_qualifiers(&node_scenario(), &[GroupBy::resource, GroupBy::node], &[]);
    assert_eq!(paths(&out), vec![vec!["cpu".to_string()], vec!["cpu".to_string(), "n1".to_string()]]);
    let n1 = out[1].1.unwrap();
    assert_eq!(attos(&n1.requested), Some(2_000_000_000_000_000_000));
    assert_eq!(attos(&n1.allocatable), Some(4_000_000_000_000_000_000));
    assert_eq!(attos(&n1.limit), None);
    assert_eq!(attos(&n1.utilization), None);
    assert_eq!(attos(&n1.calc_free()), Some(2_000_000_000_000_000_000));
}

#[test]
fn filter_excludes_other_kinds() {
    let mut rs = node_scenario();
    rs.push(rec("memory", ResourceQualifier::Allocatable, "8Gi", Some("n1"), None));
    rs.push(rec("memory", ResourceQualifier::Requested, "1Gi", Some("n1"), Some("pod-a")));
    let out = make_qualifiers(&rs, &[GroupBy::resource, GroupBy::node], &["memory".to_string()]);
    assert_eq!(out.len(), 2);
    for e in &out {
        assert_eq!(e.0[0], "memory");
    }
    let top = out[0].1.unwrap();
    assert_eq!(attos(&top.allocatable), Some(8 * 1_073_741_824_000_000_000_000_000_000));
}

#[test]
fn parent_totals_equal_sum_of_children() {
    let mut rs = node_scenario();
    rs.push(rec("cpu", ResourceQualifier::Allocatable, "2", Some("n2"), None));
    rs.push(rec("cpu", ResourceQualifier::Requested, "250m", Some("n2"), Some("pod-c")));
    let out = make_qualifiers(&rs, &[GroupBy::resource, GroupBy::node], &[]);
    assert_eq!(out.len(), 3);
    let parent = out[0].1.unwrap();
    let c1 = out[1].1.unwrap();
    let c2 = out[2].1.unwrap();
    assert_eq!(
        attos(&parent.requested).unwrap(),
        attos(&c1.requested).unwrap() + attos(&c2.requested).unwrap()
    );
    assert_eq!(
        attos(&parent.allocatable).unwrap(),
        attos(&c1.allocatable).unwrap() + attos(&c2.allocatable).unwrap()
    );
}

#[test]
fn permuted_input_gives_same_forest() {
    let mut rs = node_scenario();
    rs.push(rec("memory", ResourceQualifier::Allocatable, "8Gi", Some("n2"), None));
    rs.push(rec("cpu", ResourceQualifier::Limit, "1", Some("n2"), Some("pod-d")));
    let dims = [GroupBy::resource, GroupBy::node, GroupBy::pod];
    let a = make_qualifiers(&rs, &dims, &[]);
    let mut rev = rs.clone();
    rev.reverse();
    let b = make_qualifiers(&rev, &dims, &[]);
    assert_eq!(paths(&a), paths(&b));
    for (x, y) in a.iter().zip(b.iter()) {
        let (x, y) = (x.1.unwrap(), y.1.unwrap());
        assert_eq!(attos(&x.limit), attos(&y.limit));
        assert_eq!(attos(&x.requested), attos(&y.requested));
        assert_eq!(attos(&x.allocatable), attos(&y.allocatable));
        assert_eq!(attos(&x.utilization), attos(&y.utilization));
    }
    let mut sorted = paths(&a);
    sorted.sort();
    assert_eq!(paths(&a), sorted);
}

#[test]
fn grouping_by_pod_leaves_out_pod_counts() {
    let rs = vec![
        rec("pods", ResourceQualifier::Requested, "1", Some("n1"), Some("pod-a")),
        rec("cpu", ResourceQualifier::Requested, "1", Some("n1"), Some("pod-a")),
    ];
    let out = make_qualifiers(&rs, &[GroupBy::resource, GroupBy::pod], &[]);
    assert_eq!(
        paths(&out),
        vec![
            vec!["cpu".to_string()],
            vec!["cpu".to_string(), "pod-a".to_string()],
            vec!["pods".to_string()],
        ]
    );
}

#[test]
fn sum_of_mixed_kinds_is_none() {
    let a = rec("cpu", ResourceQualifier::Requested, "1", None, None);
    let b = rec("memory", ResourceQualifier::Requested, "1", None, None);
    assert!(sum_by_qualifier(&[&a, &b]).is_none());
    assert!(sum_by_qualifier(&[]).is_none());
    let s = sum_by_qualifier(&[&a, &a]).unwrap();
    assert_eq!(attos(&s.requested), Some(2_000_000_000_000_000_000));
}

#[test]
fn free_uses_larger_of_limit_and_requested() {
    let t = QtyByQualifier {
        limit: Some(Qty::from_str("3").unwrap()),
        requested: Some(Qty::from_str("1").unwrap()),
        allocatable: Some(Qty::from_str("4").unwrap()),
        utilization: None,
    };
    assert_eq!(attos(&t.calc_free()), Some(1_000_000_000_000_000_000));
    let over = QtyByQualifier { allocatable: Some(Qty::from_str("2").unwrap()), ..t };
    assert_eq!(attos(&over.calc_free()), Some(0));
    let none = QtyByQualifier { allocatable: None, ..t };
    assert_eq!(attos(&none.calc_free()), None);
    let unused = QtyByQualifier { limit: None, requested: None, ..t };
    assert_eq!(attos(&unused.calc_free()), None);
}

#[test]
fn tree_prefixes() {
    let p = |v: &[&str]| (v.iter().map(|s| s.to_string()).collect::<Vec<_>>(), None);
    let data = vec![
        p(&["cpu"]),
        p(&["cpu", "node-1"]),
        p(&["cpu", "node-1", "pod-a"]),
        p(&["cpu", "node-2"]),
    ];
    let prefixes = provide_prefix(&data);
    assert_eq!(prefixes, vec!["└─", "  ├─", "  │ └─", "  └─"]);
}

#[test]
fn tree_prefixes_several_roots() {
    let p = |v: &[&str]| (v.iter().map(|s| s.to_string()).collect::<Vec<_>>(), None);
    let data = vec![p(&["cpu"]), p(&["cpu", "n1"]), p(&["memory"]), p(&["memory", "n1"])];
    let prefixes = provide_prefix(&data);
    assert_eq!(prefixes, vec!["├─", "│ └─", "└─", "  └─"]);
}

#[test]
fn output_is_in_preorder() {
    let rs = vec![
        rec("memory", ResourceQualifier::Requested, "1Gi", Some("n2"), Some("pod-c")),
        rec("cpu", ResourceQualifier::Requested, "1", Some("n2"), Some("pod-c")),
        rec("cpu", ResourceQualifier::Requested, "500m", Some("n1"), Some("pod-a")),
        rec("cpu", ResourceQualifier::Allocatable, "4", Some("n1"), None),
    ];
    let out = make_qualifiers(&rs, &[GroupBy::resource, GroupBy::node, GroupBy::pod], &[]);
    let p = paths(&out);
    let s = |v: &[&str]| v.iter().map(|x| x.to_string()).collect::<Vec<String>>();
    assert_eq!(
        p,
        vec![
            s(&["cpu"]),
            s(&["cpu", "n1"]),
            s(&["cpu", "n1", "pod-a"]),
            s(&["cpu", "n2"]),
            s(&["cpu", "n2", "pod-c"]),
            s(&["memory"]),
            s(&["memory", "n2"]),
            s(&["memory", "n2", "pod-c"]),
        ]
    );
    for i in 0..p.len() {
        if p[i].len() > 1 {
            let parent = &p[i][..p[i].len() - 1];
            let j = p.iter().position(|x| x.as_slice() == parent).unwrap();
            assert!(j < i);
            for k in j + 1..i {
                assert!(p[k].starts_with(parent));
            }
        }
    }
}
