use kubectl_view_allocations::collect::{
    effective_resources, find_location, is_scheduled, node_resources, pod_metric_resources,
    pod_resources, process_resources, push_resources, ContainerResources, ContainerUsage, Merge,
    PodResources,
};
use kubectl_view_allocations::resource::{is_empty, is_shown};
use kubectl_view_allocations::{make_group_x_qualifier, make_qualifiers, GroupBy};
use kubectl_view_allocations::{Location, ParseError, Qty, QtyByQualifier, Resource, ResourceQualifier, Scale};

fn list(items: &[(&str, &str)]) -> Vec<(String, String)> {
    items.iter().map(|(k, v)| (k.to_string(), v.to_string())).collect()
}

fn names_and_attos(v: &[(String, Qty)]) -> Vec<(String, u128)> {
    v.iter().map(|(k, q)| (k.clone(), q.attos)).collect()
}

fn loc(node: Option<&str>, ns: Option<&str>, pod: Option<&str>) -> Location {
    Location {
        node_name: node.map(|s| s.to_string()),
        namespace: ns.map(|s| s.to_string()),
        pod_name: pod.map(|s| s.to_string()),
    }
}

#[test]
fn scheduled_pods() {
    let s = |p: &str| Some(p.to_string());
    assert!(is_scheduled(&s("Running"), &None));
    assert!(!is_scheduled(&s("Succeeded"), &None));
    assert!(!is_scheduled(&s("Failed"), &None));
    assert!(!is_scheduled(&s("Unknown"), &None));
    assert!(!is_scheduled(&None, &None));
    assert!(!is_scheduled(&s("Pending"), &None));
    assert!(is_scheduled(&s("Pending"), &Some(list(&[("Ready", "False"), ("PodScheduled", "True")]))));
    assert!(!is_scheduled(&s("Pending"), &Some(list(&[("PodScheduled", "False")]))));
}

#[test]
fn node_allocatable_records() {
    let mut rs: Vec<Resource> = vec![];
    node_resources(&Some("n1".to_string()), &list(&[("cpu", "4"), ("memory", "8Gi")]), &mut rs).unwrap();
    assert_eq!(rs.len(), 2);
    assert_eq!(rs[0].kind, "cpu");
    assert_eq!(rs[0].quantity.attos, 4_000_000_000_000_000_000);
    assert_eq!(rs[1].kind, "memory");
    assert_eq!(rs[1].location.node_name.as_deref(), Some("n1"));
    assert!(rs[1].location.pod_name.is_none());
    assert!(matches!(rs[1].qualifier, ResourceQualifier::Allocatable));
    let mut rs2: Vec<Resource> = vec![];
    assert_eq!(
        node_resources(&None, &list(&[("cpu", "4x")]), &mut rs2),
        Err(ParseError::UnknownSuffix)
    );
}

#[test]
fn process_adds_and_keeps_names_ordered() {
    let mut eff: Vec<(String, Qty)> = vec![];
    process_resources(&mut eff, &list(&[("memory", "1Gi"), ("cpu", "250m")]), Merge::Add).unwrap();
    process_resources(&mut eff, &list(&[("cpu", "750m")]), Merge::Add).unwrap();
    assert_eq!(
        names_and_attos(&eff),
        vec![("cpu".to_string(), 1_000_000_000_000_000_000), ("memory".to_string(), 1_073_741_824_000_000_000_000_000_000)]
    );
    process_resources(&mut eff, &list(&[("cpu", "2"), ("memory", "1Mi")]), Merge::Max).unwrap();
    assert_eq!(
        names_and_attos(&eff),
        vec![("cpu".to_string(), 2_000_000_000_000_000_000), ("memory".to_string(), 1_073_741_824_000_000_000_000_000_000)]
    );
    assert_eq!(
        process_resources(&mut eff, &list(&[("cpu", "1..2")]), Merge::Add),
        Err(ParseError::Malformed)
    );
}

#[test]
fn push_adds_pod_count() {
    let mut rs: Vec<Resource> = vec![];
    let l = loc(Some("n1"), Some("ns"), Some("p"));
    push_resources(&mut rs, &l, ResourceQualifier::Limit, &[("cpu".to_string(), Qty::from_str("1").unwrap())]);
    assert_eq!(rs.len(), 2);
    assert_eq!(rs[1].kind, "pods");
    assert_eq!(rs[1].quantity.attos, 1_000_000_000_000_000_000);
    assert_eq!(rs[1].location.pod_name.as_deref(), Some("p"));
}

fn pod() -> PodResources {
    PodResources {
        location: loc(Some("n1"), Some("default"), Some("web")),
        containers: vec![
            ContainerResources { requests: Some(list(&[("cpu", "100m")])), limits: Some(list(&[("cpu", "1")])) },
            ContainerResources { requests: Some(list(&[("cpu", "200m"), ("memory", "64Mi")])), limits: None },
        ],
        init_containers: vec![ContainerResources { requests: Some(list(&[("cpu", "500m")])), limits: None }],
        overhead: Some(list(&[("cpu", "10m")])),
    }
}

#[test]
fn effective_pod_resources() {
    let (rq, lm) = effective_resources(&pod()).unwrap();
    assert_eq!(
        names_and_attos(&rq),
        vec![("cpu".to_string(), 510_000_000_000_000_000), ("memory".to_string(), 64 * 1_048_576_000_000_000_000_000_000)]
    );
    assert_eq!(names_and_attos(&lm), vec![("cpu".to_string(), 1_010_000_000_000_000_000)]);
}

#[test]
fn pod_records() {
    let mut rs: Vec<Resource> = vec![];
    pod_resources(&pod(), &mut rs).unwrap();
    let kinds: Vec<&str> = rs.iter().map(|r| r.kind.as_str()).collect();
    assert_eq!(kinds, vec!["cpu", "memory", "pods", "cpu", "pods"]);
    assert!(matches!(rs[0].qualifier, ResourceQualifier::Requested));
    assert!(matches!(rs[3].qualifier, ResourceQualifier::Limit));
    let mut bad = pod();
    bad.overhead = Some(list(&[("cpu", "-1")]));
    let mut rs2: Vec<Resource> = vec![];
    assert_eq!(pod_resources(&bad, &mut rs2), Err(ParseError::Negative));
    assert!(rs2.is_empty());
}

#[test]
fn metrics_records() {
    let mut rs: Vec<Resource> = vec![];
    let usages = vec![
        ContainerUsage { cpu: "0".to_string(), memory: "10Mi".to_string() },
        ContainerUsage { cpu: "250m".to_string(), memory: "0".to_string() },
    ];
    pod_metric_resources(&loc(None, Some("ns"), Some("p")), &usages, &mut rs).unwrap();
    assert_eq!(rs.len(), 2);
    assert_eq!(rs[0].kind, "cpu");
    assert_eq!(rs[0].quantity.attos, 250_000_001_000_000_000);
    assert_eq!(rs[1].kind, "memory");
    assert_eq!(rs[1].quantity.attos, 10 * 1_048_576_000_000_000_000_000_000 + 1_000_000_000);
    assert!(matches!(rs[1].qualifier, ResourceQualifier::Utilization));
    let bad = vec![ContainerUsage { cpu: "1".to_string(), memory: "x1".to_string() }];
    assert_eq!(pod_metric_resources(&loc(None, None, None), &bad, &mut rs), Err(ParseError::Malformed));
    assert_eq!(rs.len(), 2);
}

#[test]
fn location_of_a_pod() {
    let mut rs: Vec<Resource> = vec![];
    push_resources(&mut rs, &loc(Some("n1"), Some("ns"), Some("p")), ResourceQualifier::Requested, &[]);
    push_resources(&mut rs, &loc(Some("n2"), None, Some("q")), ResourceQualifier::Requested, &[]);
    let found = find_location(&rs, &Some("ns".to_string()), &Some("p".to_string()));
    assert_eq!(found.node_name.as_deref(), Some("n1"));
    let found = find_location(&rs, &None, &Some("q".to_string()));
    assert_eq!(found.node_name.as_deref(), Some("n2"));
    let missing = find_location(&rs, &Some("other".to_string()), &Some("p".to_string()));
    assert!(missing.node_name.is_none());
    assert_eq!(missing.namespace.as_deref(), Some("other"));
}

#[test]
fn adjust_scale_picks_readable_unit() {
    let q = |s: &str| Qty::from_str(s).unwrap();
    assert_eq!(q("1500m").adjust_scale().scale, Scale::Unit);
    assert_eq!(q("2048Mi").adjust_scale().scale, Scale::Gibi);
    assert_eq!(q("500m").adjust_scale().scale, Scale::Milli);
    assert_eq!(q("3000000k").adjust_scale().scale, Scale::Giga);
    assert_eq!(q("2048Mi").adjust_scale().attos, q("2Gi").attos);
    assert_eq!(q("300E").adjust_scale().scale, Scale::Exa);
    assert_eq!(Qty::from_str("5000E").unwrap_err(), ParseError::OutOfRange);
}

#[test]
fn empty_and_shown_rows() {
    let zero = Some(Qty::zero());
    assert!(is_empty(&None));
    assert!(is_empty(&zero));
    assert!(!is_empty(&Some(Qty::lowest_positive())));
    let t = QtyByQualifier { limit: zero, requested: None, allocatable: zero, utilization: None };
    assert!(!is_shown(&Some(t), true));
    assert!(is_shown(&Some(t), false));
    assert!(is_shown(&None, true));
    let u = QtyByQualifier { utilization: zero, ..t };
    assert!(is_shown(&Some(u), true));
}

#[test]
fn sibling_groups_sorted_after_grouping() {
    let l = |n: &str| Location { node_name: Some(n.to_string()), namespace: None, pod_name: None };
    let rec = |n: &str| Resource {
        kind: "cpu".to_string(),
        quantity: Qty::from_str("1").unwrap(),
        location: l(n),
        qualifier: ResourceQualifier::Allocatable,
    };
    let rs = vec![rec("b"), rec("a")];
    let refs: Vec<&Resource> = rs.iter().collect();
    let raw = make_group_x_qualifier(&refs, &[], &[GroupBy::node], 0);
    let raw_paths: Vec<Vec<String>> = raw.iter().map(|e| e.0.clone()).collect();
    assert_eq!(raw_paths, vec![vec!["b".to_string()], vec!["a".to_string()]]);
    let sorted = make_qualifiers(&rs, &[GroupBy::node], &[]);
    let sorted_paths: Vec<Vec<String>> = sorted.iter().map(|e| e.0.clone()).collect();
    assert_eq!(sorted_paths, vec![vec!["a".to_string()], vec!["b".to_string()]]);
}

#[test]
fn node_records_below_a_nano_unit() {
    let mut rs: Vec<Resource> = vec![];
    node_resources(&Some("n1".to_string()), &list(&[("cpu", "1.5n"), ("memory", "0.0000000001")]), &mut rs)
        .unwrap();
    assert_eq!(rs.len(), 2);
    assert_eq!(rs[0].quantity.attos, 1_500_000_000);
    assert_eq!(rs[1].quantity.attos, 100_000_000);
}

#[test]
fn max_pass_twice_changes_nothing() {
    let mut eff: Vec<(String, Qty)> = vec![];
    process_resources(&mut eff, &list(&[("cpu", "250m"), ("memory", "1Mi")]), Merge::Add).unwrap();
    let l = list(&[("cpu", "1"), ("memory", "512Ki"), ("cpu", "100m")]);
    process_resources(&mut eff, &l, Merge::Max).unwrap();
    let once = names_and_attos(&eff);
    assert_eq!(
        once,
        vec![("cpu".to_string(), 1_000_000_000_000_000_000), ("memory".to_string(), 1_048_576_000_000_000_000_000_000)]
    );
    process_resources(&mut eff, &l, Merge::Max).unwrap();
    assert_eq!(names_and_attos(&eff), once);
}
